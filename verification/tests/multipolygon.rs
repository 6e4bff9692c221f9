use country_boundaries::multipolygon::{is_left, is_point_in_polygon};
use country_boundaries::{Multipolygon, Point};

fn p(x: u16, y: u16) -> Point {
    Point { x, y }
}

fn big_square() -> Vec<Point> {
    vec![p(0, 0), p(0, 10), p(10, 10), p(10, 0)]
}

fn hole() -> Vec<Point> {
    vec![p(2, 2), p(2, 8), p(8, 8), p(8, 2)]
}

fn small_square() -> Vec<Point> {
    vec![p(4, 4), p(4, 6), p(6, 6), p(6, 4)]
}

#[test]
fn simple_point_in_polygon() {
    assert!(is_point_in_polygon(p(5, 5), big_square().as_slice()));
}

#[test]
fn covers_simple_polygon() {
    assert!(Multipolygon { outer: vec![big_square()], inner: vec![] }.covers(p(5, 5)));
}

#[test]
fn does_not_cover_hole() {
    assert!(!Multipolygon { outer: vec![big_square()], inner: vec![hole()] }.covers(p(5, 5)));
}

#[test]
fn does_cover_polygon_in_hole() {
    assert!(Multipolygon {
        outer: vec![big_square(), small_square()],
        inner: vec![hole()]
    }
    .covers(p(5, 5)));
}

#[test]
fn only_upper_left_edge_counts_as_inside() {
    let polygon = Multipolygon { outer: vec![big_square()], inner: vec![] };

    assert!(polygon.covers(p(0, 0)));
    assert!(polygon.covers(p(5, 0)));
    assert!(polygon.covers(p(0, 5)));
    assert!(!polygon.covers(p(0, 10)));
    assert!(!polygon.covers(p(10, 0)));
    assert!(!polygon.covers(p(5, 10)));
    assert!(!polygon.covers(p(10, 5)));
    assert!(!polygon.covers(p(10, 10)));
}

#[test]
fn empty_ring_covers_nothing() {
    assert!(!is_point_in_polygon(p(0, 0), &[]));
    assert!(!Multipolygon { outer: vec![vec![]], inner: vec![] }.covers(p(0, 0)));
    assert!(!Multipolygon { outer: vec![], inner: vec![] }.covers(p(3, 3)));
}

#[test]
fn ring_direction_does_not_matter() {
    let mut reversed = big_square();
    reversed.reverse();
    for x in 0..12 {
        for y in 0..12 {
            assert_eq!(
                is_point_in_polygon(p(x, y), big_square().as_slice()),
                is_point_in_polygon(p(x, y), reversed.as_slice())
            );
        }
    }
}

#[test]
fn square_covers_exactly_its_half_open_area() {
    for x in 0..12 {
        for y in 0..12 {
            assert_eq!(x < 10 && y < 10, is_point_in_polygon(p(x, y), big_square().as_slice()));
        }
    }
}

#[test]
fn hole_around_point_without_outer_ring_covers_nothing() {
    assert!(!Multipolygon { outer: vec![], inner: vec![hole()] }.covers(p(5, 5)));
}

#[test]
fn two_holes_outweigh_two_outer_rings_only_where_both_cover() {
    let area = Multipolygon {
        outer: vec![big_square(), big_square()],
        inner: vec![hole(), small_square()],
    };
    // in both holes: two votes in, two votes out
    assert!(!area.covers(p(5, 5)));
    // in one hole only
    assert!(area.covers(p(3, 3)));
    // in no hole
    assert!(area.covers(p(1, 1)));
}

#[test]
fn triangle_contains_points_left_of_its_slanted_edge() {
    let triangle = vec![p(0, 0), p(10, 0), p(0, 10)];
    assert!(is_point_in_polygon(p(1, 1), triangle.as_slice()));
    assert!(is_point_in_polygon(p(4, 5), triangle.as_slice()));
    assert!(!is_point_in_polygon(p(5, 5), triangle.as_slice()));
    assert!(!is_point_in_polygon(p(6, 5), triangle.as_slice()));
}

#[test]
fn is_left_is_the_cross_product() {
    assert_eq!(100, is_left(p(0, 0), p(10, 0), p(5, 10)));
    assert_eq!(-100, is_left(p(10, 0), p(0, 0), p(5, 10)));
    assert_eq!(0, is_left(p(0, 0), p(10, 10), p(5, 5)));
    // the largest products of differences of coordinates
    assert_eq!(
        65535i64 * 65535,
        is_left(p(0, 0), p(65535, 0), p(0, 65535))
    );
    assert_eq!(
        -(65535i64 * 65535),
        is_left(p(0, 0), p(0, 65535), p(65535, 0))
    );
    assert_eq!(65535i64 * 65535, is_left(p(65535, 65535), p(0, 65535), p(65535, 0)));
}
