use proyecto_opencv::geometry::{bounding_rect, contour_doubled_area, Point, Rect};

fn pts(v: &[(i32, i32)]) -> Vec<Point> {
    v.iter().map(|&(x, y)| Point { x, y }).collect()
}

#[test]
fn square_area_is_the_same_either_way_round() {
    let sq = pts(&[(0, 0), (10, 0), (10, 10), (0, 10)]);
    assert_eq!(contour_doubled_area(&sq), 200);
    let mut rev = sq.clone();
    rev.reverse();
    assert_eq!(contour_doubled_area(&rev), 200);
}

#[test]
fn triangle_and_degenerate_contours() {
    assert_eq!(contour_doubled_area(&pts(&[(0, 0), (4, 0), (0, 3)])), 12);
    assert_eq!(contour_doubled_area(&pts(&[])), 0);
    assert_eq!(contour_doubled_area(&pts(&[(5, 5)])), 0);
    assert_eq!(contour_doubled_area(&pts(&[(1, 1), (9, 4)])), 0);
    // an L-shaped hexagon
    let l = pts(&[(0, 0), (6, 0), (6, 2), (2, 2), (2, 5), (0, 5)]);
    assert_eq!(contour_doubled_area(&l), 2 * (12 + 6));
}

#[test]
fn area_of_large_coordinates_is_exact() {
    let m = i32::MAX - 1;
    let big = pts(&[(0, 0), (m, 0), (m, m), (0, m)]);
    assert_eq!(contour_doubled_area(&big), 2 * (m as i128) * (m as i128));
}

#[test]
fn bounding_rect_counts_the_edge_pixels() {
    let c = pts(&[(3, 7), (10, 2), (5, 9)]);
    assert_eq!(bounding_rect(&c), Rect { x: 3, y: 2, width: 8, height: 8 });
    assert_eq!(bounding_rect(&pts(&[(4, 4)])), Rect { x: 4, y: 4, width: 1, height: 1 });
    assert_eq!(bounding_rect(&pts(&[])), Rect { x: 0, y: 0, width: 0, height: 0 });
}
