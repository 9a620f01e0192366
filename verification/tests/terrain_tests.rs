use graph_algos::distance::Distance;
use graph_algos::terrain::{mark_path, MapSlice, Point2d, TerrainMap};

fn raised(width: u32, height: u32, cells: &[(u32, u32, u32)]) -> TerrainMap {
    let mut t = TerrainMap::new(width, height);
    for &(x, y, h) in cells {
        *t.get_mut(x, y).unwrap() = MapSlice::Height(h);
    }
    t
}

#[test]
fn a_new_map_is_flat() {
    let t = TerrainMap::new(3, 2);
    assert_eq!(t.width(), 3);
    assert_eq!(t.height(), 2);
    for x in 0..3 {
        for y in 0..2 {
            assert_eq!(t.get(x, y), Some(&MapSlice::Height(1)));
        }
    }
}

#[test]
fn get_is_none_off_the_map() {
    let t = TerrainMap::new(3, 2);
    assert_eq!(t.get(3, 0), None);
    assert_eq!(t.get(0, 2), None);
    assert_eq!(t.get(u32::MAX, u32::MAX), None);
}

#[test]
fn get_mut_overwrites_one_cell() {
    let mut t = TerrainMap::new(2, 3);
    *t.get_mut(1, 2).unwrap() = MapSlice::Height(9);
    assert!(t.get_mut(2, 0).is_none());
    assert!(t.get_mut(0, 3).is_none());
    for x in 0..2 {
        for y in 0..3 {
            let expected = if (x, y) == (1, 2) { MapSlice::Height(9) } else { MapSlice::Height(1) };
            assert_eq!(t.get(x, y), Some(&expected));
        }
    }
}

#[test]
fn get_height_is_defined_for_cells_to_walk_on() {
    assert_eq!(MapSlice::Height(4).get_height(), Some(4));
    assert_eq!(MapSlice::Obstacle.get_height(), None);
    assert_eq!(MapSlice::Visited.get_height(), None);
}

#[test]
fn points_keep_their_coordinates() {
    let p = Point2d::new(3, 8);
    assert_eq!(p.x(), 3);
    assert_eq!(p.y(), 8);
    assert_eq!(p, Point2d(3, 8));
}

#[test]
fn distance_is_one_more_than_the_gap_in_height() {
    let t = raised(3, 3, &[(0, 0, 5), (1, 0, 2), (2, 0, 2)]);
    let a = Point2d::new(0, 0);
    let b = Point2d::new(1, 0);
    let c = Point2d::new(2, 0);
    assert_eq!(t.distance(&a, &b), Some(Distance::Dist(4)));
    assert_eq!(t.distance(&b, &a), Some(Distance::Dist(4)));
    assert_eq!(t.distance(&b, &c), Some(Distance::Dist(1)));
}

#[test]
fn distance_is_undefined_for_obstacles_and_off_the_map() {
    let mut t = TerrainMap::new(3, 3);
    t.put_obstacle(Point2d::new(1, 1), Point2d::new(1, 1));
    assert_eq!(t.distance(&Point2d::new(0, 1), &Point2d::new(1, 1)), None);
    assert_eq!(t.distance(&Point2d::new(1, 1), &Point2d::new(0, 1)), None);
    assert_eq!(t.distance(&Point2d::new(2, 2), &Point2d::new(3, 2)), None);
    assert_eq!(t.distance(&Point2d::new(2, 2), &Point2d::new(2, 3)), None);
}

#[test]
fn distance_that_does_not_fit_is_infinite() {
    let t = raised(2, 2, &[(0, 0, 0), (1, 0, u32::MAX)]);
    assert_eq!(t.distance(&Point2d::new(0, 0), &Point2d::new(1, 0)), Some(Distance::Inf));
}

#[test]
fn neighbors_are_listed_left_right_below_above() {
    let t = TerrainMap::new(3, 3);
    assert_eq!(
        t.neighbors(&Point2d::new(1, 1)),
        vec![Point2d::new(0, 1), Point2d::new(2, 1), Point2d::new(1, 0), Point2d::new(1, 2)]
    );
    assert_eq!(t.neighbors(&Point2d::new(0, 0)), vec![Point2d::new(1, 0), Point2d::new(0, 1)]);
    assert_eq!(t.neighbors(&Point2d::new(2, 2)), vec![Point2d::new(1, 2), Point2d::new(2, 1)]);
}

#[test]
fn neighbors_leave_out_obstacles() {
    let mut t = TerrainMap::new(3, 3);
    t.put_obstacle(Point2d::new(0, 1), Point2d::new(0, 2));
    assert_eq!(t.neighbors(&Point2d::new(1, 1)), vec![Point2d::new(2, 1), Point2d::new(1, 0), Point2d::new(1, 2)]);
    assert_eq!(t.neighbors(&Point2d::new(0, 0)), vec![Point2d::new(1, 0)]);
}

#[test]
fn put_obstacle_covers_a_row_segment() {
    let mut t = TerrainMap::new(4, 3);
    t.put_obstacle(Point2d::new(2, 1), Point2d::new(0, 1));
    for x in 0..4 {
        for y in 0..3 {
            let expected = if y == 1 && x <= 2 { MapSlice::Obstacle } else { MapSlice::Height(1) };
            assert_eq!(t.get(x, y), Some(&expected));
        }
    }
}

#[test]
fn put_obstacle_covers_a_column_segment() {
    let mut t = TerrainMap::new(3, 4);
    t.put_obstacle(Point2d::new(1, 1), Point2d::new(1, 3));
    for x in 0..3 {
        for y in 0..4 {
            let expected = if x == 1 && y >= 1 { MapSlice::Obstacle } else { MapSlice::Height(1) };
            assert_eq!(t.get(x, y), Some(&expected));
        }
    }
}

#[test]
fn the_bottom_row_is_row_zero() {
    let mut t = TerrainMap::new(2, 3);
    t.put_obstacle(Point2d::new(0, 0), Point2d::new(1, 0));
    assert_eq!(t.get(0, 0), Some(&MapSlice::Obstacle));
    assert_eq!(t.get(0, 2), Some(&MapSlice::Height(1)));
    assert_eq!(t.neighbors(&Point2d::new(0, 1)), vec![Point2d::new(1, 1), Point2d::new(0, 2)]);
}

#[test]
fn mark_path_marks_the_cells_on_the_map() {
    let mut t = TerrainMap::new(3, 3);
    let path = vec![Point2d::new(0, 0), Point2d::new(1, 0), Point2d::new(1, 1), Point2d::new(7, 7)];
    mark_path(&mut t, &path);
    for x in 0..3 {
        for y in 0..3 {
            let marked = path.contains(&Point2d::new(x, y));
            let expected = if marked { MapSlice::Visited } else { MapSlice::Height(1) };
            assert_eq!(t.get(x, y), Some(&expected));
        }
    }
    assert_eq!(t.neighbors(&Point2d::new(0, 1)), vec![Point2d::new(0, 2)]);
}
