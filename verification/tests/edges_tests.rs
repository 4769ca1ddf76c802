use triangulation::edges::{calc_dedup_edges, dedup_segments};
use triangulation::point::{Point, Segment};
use triangulation::split::split_polygon_on_repeated_edges;

fn pts(list: &[(i32, i32)]) -> Vec<Point> {
    list.iter().map(|&(x, y)| Point::new(x, y)).collect()
}

fn seg(x1: i32, y1: i32, x2: i32, y2: i32) -> Segment {
    Segment::new(Point::new(x1, y1), Point::new(x2, y2))
}

const SQUARE_WITH_HOLE: [(i32, i32); 10] = [
    (0, 0),
    (3, 0),
    (3, 3),
    (0, 3),
    (0, 0),
    (1, 1),
    (2, 1),
    (2, 2),
    (1, 2),
    (1, 1),
];

#[test]
fn dedup_edges_of_two_closed_triangles() {
    let polygon1 = pts(&[(0, 0), (1, 0), (1, 1), (0, 0)]);
    let polygon2 = pts(&[(1, 0), (2, 0), (2, 1), (1, 0)]);
    let edges = calc_dedup_edges(&[polygon1, polygon2]);
    assert_eq!(edges.len(), 6);
}

#[test]
fn dedup_edges_come_in_the_order_of_first_occurrence() {
    let edges = calc_dedup_edges(&[pts(&[(0, 0), (1, 0), (1, 1)])]);
    assert_eq!(edges, vec![seg(0, 0, 1, 0), seg(1, 0, 1, 1), seg(1, 1, 0, 0)]);
}

#[test]
fn shared_edge_of_two_polygons_is_left_out() {
    let a = pts(&[(0, 0), (1, 0), (1, 1), (0, 1)]);
    let b = pts(&[(1, 0), (2, 0), (2, 1), (1, 1)]);
    let edges = calc_dedup_edges(&[a.clone(), b.clone()]);
    assert_eq!(edges.len(), 6);
    assert!(!edges.contains(&seg(1, 0, 1, 1)));
    let mut one = edges.clone();
    let mut other = calc_dedup_edges(&[b, a]);
    one.sort_by_key(|s| s.key());
    other.sort_by_key(|s| s.key());
    assert_eq!(one, other);
}

#[test]
fn edge_walked_three_times_stays_once() {
    let edges = dedup_segments(&vec![
        seg(0, 0, 1, 0),
        seg(1, 0, 0, 0),
        seg(0, 0, 1, 0),
        seg(5, 5, 6, 6),
        seg(6, 6, 5, 5),
    ]);
    assert_eq!(edges, vec![seg(0, 0, 1, 0)]);
}

#[test]
fn degenerate_polygons_have_no_edges() {
    assert!(calc_dedup_edges(&[]).is_empty());
    assert!(calc_dedup_edges(&[pts(&[])]).is_empty());
    assert!(calc_dedup_edges(&[pts(&[(1, 1)])]).is_empty());
    assert!(calc_dedup_edges(&[pts(&[(1, 1), (2, 2)])]).is_empty());
}

#[test]
fn every_point_ends_an_even_number_of_dedup_edges() {
    let polygons = [
        pts(&[(0, 0), (4, 0), (0, 4), (4, 4)]),
        pts(&SQUARE_WITH_HOLE),
        pts(&[(0, 0), (2, 0), (1, 1), (0, 0), (2, 0), (1, -1)]),
    ];
    for polygon in polygons {
        let edges = calc_dedup_edges(&[polygon.clone()]);
        for p in polygon {
            let degree = edges.iter().filter(|s| s.bottom == p || s.top == p).count();
            assert_eq!(degree % 2, 0);
        }
    }
}

#[test]
fn triangle_has_three_dedup_edges() {
    assert_eq!(calc_dedup_edges(&[pts(&[(0, 0), (2, 0), (1, 2)])]).len(), 3);
}

#[test]
fn square_with_square_hole_edges() {
    let edges = calc_dedup_edges(&[pts(&SQUARE_WITH_HOLE)]);
    let mut expected = vec![
        seg(0, 0, 3, 0),
        seg(3, 0, 3, 3),
        seg(3, 3, 0, 3),
        seg(0, 3, 0, 0),
        seg(1, 1, 2, 1),
        seg(2, 1, 2, 2),
        seg(2, 2, 1, 2),
        seg(1, 2, 1, 1),
    ];
    let mut found = edges.clone();
    found.sort_by_key(|s| s.key());
    expected.sort_by_key(|s| s.key());
    assert_eq!(found, expected);
}

#[test]
fn square_with_square_hole_splits_in_two() {
    let (polygons, edges) = split_polygon_on_repeated_edges(&pts(&SQUARE_WITH_HOLE));
    assert_eq!(edges.len(), 8);
    assert_eq!(
        polygons,
        vec![
            pts(&[(0, 0), (3, 0), (3, 3), (0, 3)]),
            pts(&[(1, 1), (2, 1), (2, 2), (1, 2)]),
        ]
    );
}

#[test]
fn simple_polygon_is_not_split() {
    let square = pts(&[(0, 0), (1, 0), (1, 1), (0, 1)]);
    let (polygons, edges) = split_polygon_on_repeated_edges(&square);
    assert_eq!(polygons, vec![square]);
    assert_eq!(edges.len(), 4);
}

#[test]
fn figure_eight_is_walked_in_one_piece() {
    let eight = pts(&[(0, 0), (2, 2), (4, 0), (4, 4), (2, 2), (0, 4)]);
    let (polygons, edges) = split_polygon_on_repeated_edges(&eight);
    assert_eq!(edges.len(), 6);
    assert_eq!(polygons, vec![pts(&[(0, 0), (2, 2), (4, 0), (4, 4), (2, 2), (0, 4)])]);
}

#[test]
fn split_of_degenerate_polygons() {
    let (polygons, edges) = split_polygon_on_repeated_edges(&pts(&[]));
    assert!(polygons.is_empty() && edges.is_empty());
    let (polygons, edges) = split_polygon_on_repeated_edges(&pts(&[(1, 1), (2, 2)]));
    assert!(polygons.is_empty() && edges.is_empty());
    let (polygons, edges) = split_polygon_on_repeated_edges(&pts(&[(0, 0), (1, 0), (0, 0)]));
    assert!(polygons.is_empty() && edges.is_empty());
}
