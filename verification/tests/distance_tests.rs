use graph_algos::distance::Distance;
use std::cmp::Ordering;

#[test]
fn infinity_is_above_every_finite_distance() {
    assert!(Distance::Dist(u32::MAX) < Distance::Inf);
    assert!(Distance::Dist(0) < Distance::Dist(1));
    assert!(!(Distance::Inf < Distance::Inf));
    assert!(Distance::Inf > Distance::Dist(7));
    assert!(Distance::Dist(3) <= Distance::Dist(3));
}

#[test]
fn compare_is_a_three_way_comparison() {
    assert_eq!(Distance::Inf.compare(&Distance::Inf), Ordering::Equal);
    assert_eq!(Distance::Dist(4).compare(&Distance::Inf), Ordering::Less);
    assert_eq!(Distance::Inf.compare(&Distance::Dist(4)), Ordering::Greater);
    assert_eq!(Distance::Dist(4).compare(&Distance::Dist(9)), Ordering::Less);
    assert_eq!(Distance::Dist(9).compare(&Distance::Dist(9)), Ordering::Equal);
    assert_eq!(Distance::Dist(9).compare(&Distance::Dist(4)), Ordering::Greater);
}

#[test]
fn equality_is_by_value() {
    assert_eq!(Distance::Inf, Distance::Inf);
    assert_eq!(Distance::Dist(5), Distance::Dist(5));
    assert_ne!(Distance::Dist(5), Distance::Dist(6));
    assert_ne!(Distance::Dist(5), Distance::Inf);
}

#[test]
fn sum_of_finite_distances() {
    assert_eq!(Distance::Dist(2) + Distance::Dist(3), Distance::Dist(5));
    assert_eq!(Distance::Dist(0) + Distance::Dist(0), Distance::Dist(0));
    assert_eq!(Distance::Dist(u32::MAX - 1) + Distance::Dist(1), Distance::Dist(u32::MAX));
}

#[test]
fn sum_with_infinity_is_infinite() {
    assert_eq!(Distance::Inf + Distance::Dist(3), Distance::Inf);
    assert_eq!(Distance::Dist(3) + Distance::Inf, Distance::Inf);
    assert_eq!(Distance::Inf + Distance::Inf, Distance::Inf);
}

#[test]
fn sum_that_does_not_fit_is_infinite() {
    assert_eq!(Distance::Dist(u32::MAX) + Distance::Dist(1), Distance::Inf);
    assert_eq!(Distance::Dist(u32::MAX) + Distance::Dist(u32::MAX), Distance::Inf);
}

#[test]
fn set_dist_makes_the_distance_finite() {
    let mut d = Distance::Inf;
    d.set_dist(12);
    assert_eq!(d, Distance::Dist(12));
    d.set_dist(0);
    assert_eq!(d, Distance::Dist(0));
}
