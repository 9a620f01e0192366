use graph_algos::distance::Distance;
use graph_algos::heap::{PositionTrackingMinHeap, VertAttributes, VertexId};
use graph_algos::terrain::Point2d;

#[test]
fn records_start_without_predecessor() {
    let a = VertAttributes::new_inf(4u32);
    assert_eq!(a.id, 4);
    assert_eq!(a.predecessor, None);
    assert_eq!(a.distance, Distance::Inf);
    let b = VertAttributes::new_zero(5u32);
    assert_eq!(b.distance, Distance::Dist(0));
    assert_eq!(b.predecessor, None);
    let c = VertAttributes::new_dist(6u32, Distance::Dist(9));
    assert_eq!(c.id, 6);
    assert_eq!(c.distance, Distance::Dist(9));
}

#[test]
fn keys_tell_identifiers_apart() {
    assert_eq!(7u32.key(), 7u64);
    assert_eq!(Point2d::new(0, 5).key(), 5);
    assert_eq!(Point2d::new(1, 0).key(), 1u64 << 32);
    assert_ne!(Point2d::new(1, 2).key(), Point2d::new(2, 1).key());
}

#[test]
fn new_heap_is_empty() {
    let h: PositionTrackingMinHeap<u32> = PositionTrackingMinHeap::new();
    assert!(h.is_empty());
    assert_eq!(h.len(), 0);
    assert!(h.get(0).is_none());
    assert_eq!(h.vert_index(3), None);
}

#[test]
fn the_least_distance_is_at_the_root() {
    let mut h: PositionTrackingMinHeap<u32> = PositionTrackingMinHeap::new();
    h.insert(VertAttributes::new_dist(1, Distance::Dist(5)));
    h.insert(VertAttributes::new_dist(2, Distance::Dist(3)));
    h.insert(VertAttributes::new_inf(3));
    h.insert(VertAttributes::new_dist(4, Distance::Dist(1)));
    h.insert(VertAttributes::new_dist(5, Distance::Dist(4)));
    assert_eq!(h.len(), 5);
    assert_eq!(h.get(0).unwrap().id, 4);
    assert_eq!(h.get(0).unwrap().distance, Distance::Dist(1));
}

#[test]
fn extract_min_returns_the_records_in_ascending_order() {
    let mut h: PositionTrackingMinHeap<u32> = PositionTrackingMinHeap::new();
    let input = [(1u32, 50u32), (2, 30), (3, 70), (4, 10), (5, 40), (6, 20), (7, 60)];
    for (id, d) in input {
        h.insert(VertAttributes::new_dist(id, Distance::Dist(d)));
    }
    let mut got = Vec::new();
    while !h.is_empty() {
        let m = h.extract_min();
        got.push((m.id, m.distance));
    }
    assert_eq!(
        got,
        vec![
            (4, Distance::Dist(10)),
            (6, Distance::Dist(20)),
            (2, Distance::Dist(30)),
            (5, Distance::Dist(40)),
            (1, Distance::Dist(50)),
            (7, Distance::Dist(60)),
            (3, Distance::Dist(70)),
        ]
    );
}

#[test]
fn vert_index_is_defined_exactly_for_the_vertices_held() {
    let mut h: PositionTrackingMinHeap<u32> = PositionTrackingMinHeap::new();
    for id in 1u32..=6 {
        h.insert(VertAttributes::new_dist(id, Distance::Dist(100 - id)));
    }
    for id in 1u32..=6 {
        let at = h.vert_index(id).unwrap();
        assert_eq!(h.get(at).unwrap().id, id);
    }
    assert_eq!(h.vert_index(7), None);
    let m = h.extract_min();
    assert_eq!(m.id, 6);
    assert_eq!(h.vert_index(6), None);
    for id in 1u32..=5 {
        let at = h.vert_index(id).unwrap();
        assert_eq!(h.get(at).unwrap().id, id);
    }
}

#[test]
fn heap_decrease_key_moves_a_record_up() {
    let mut h: PositionTrackingMinHeap<u32> = PositionTrackingMinHeap::new();
    h.insert(VertAttributes::new_dist(1, Distance::Dist(10)));
    h.insert(VertAttributes::new_dist(2, Distance::Dist(20)));
    h.insert(VertAttributes::new_inf(3));
    h.insert(VertAttributes::new_inf(4));
    let at = h.vert_index(4).unwrap();
    h.heap_decrease_key(
        at,
        VertAttributes { id: 4, predecessor: Some(1), distance: Distance::Dist(5) },
    );
    assert_eq!(h.len(), 4);
    let m = h.extract_min();
    assert_eq!(m.id, 4);
    assert_eq!(m.predecessor, Some(1));
    assert_eq!(m.distance, Distance::Dist(5));
    assert_eq!(h.extract_min().id, 1);
    assert_eq!(h.extract_min().id, 2);
    assert_eq!(h.extract_min().id, 3);
    assert!(h.is_empty());
}

#[test]
fn min_heapify_leaves_an_ordered_heap_as_it_is() {
    let mut h: PositionTrackingMinHeap<u32> = PositionTrackingMinHeap::new();
    for (id, d) in [(1u32, 1u32), (2, 2), (3, 3), (4, 4)] {
        h.insert(VertAttributes::new_dist(id, Distance::Dist(d)));
    }
    let before: Vec<u32> = (0..h.len()).map(|i| h.get(i).unwrap().id).collect();
    h.min_heapify(0);
    h.min_heapify(1);
    h.min_heapify(9);
    let after: Vec<u32> = (0..h.len()).map(|i| h.get(i).unwrap().id).collect();
    assert_eq!(before, after);
}

#[test]
fn the_heap_tracks_points_too() {
    let mut h: PositionTrackingMinHeap<Point2d> = PositionTrackingMinHeap::new();
    h.insert(VertAttributes::new_dist(Point2d::new(0, 1), Distance::Dist(4)));
    h.insert(VertAttributes::new_dist(Point2d::new(1, 0), Distance::Dist(2)));
    assert!(h.vert_index(Point2d::new(1, 0)).is_some());
    assert!(h.vert_index(Point2d::new(1, 1)).is_none());
    assert_eq!(h.extract_min().id, Point2d::new(1, 0));
    assert_eq!(h.extract_min().id, Point2d::new(0, 1));
}
