use triangulation::edges::calc_dedup_edges;
use triangulation::face::{
    all_pieces_well_turned, face_triangulation, index_triangles, triangulate_polygons_face,
};
use triangulation::funnel::lies_apart;
use triangulation::face_triangulation::{
    sweeping_line_triangulation, Interval, MonotonePolygonBuilder, SweepError,
};
use triangulation::monotone_polygon::{
    is_well_turned, triangulate_monotone_polygon, MonotonePolygon,
};
use triangulation::point::{turn_value, Point, PointTriangle, Segment, Triangle};
use triangulation::point_edges::{get_point_type, get_points_edges, PointType};

fn pts(list: &[(i32, i32)]) -> Vec<Point> {
    list.iter().map(|&(x, y)| Point::new(x, y)).collect()
}

fn seg(x1: i32, y1: i32, x2: i32, y2: i32) -> Segment {
    Segment::new(Point::new(x1, y1), Point::new(x2, y2))
}

fn renumerate(polygon: &[Point], points: &[Point], triangles: &[Triangle]) -> Vec<[usize; 3]> {
    let num = |p: Point| polygon.iter().position(|&q| q == p).unwrap();
    triangles
        .iter()
        .map(|t| [num(points[t.x]), num(points[t.y]), num(points[t.z])])
        .collect()
}

fn doubled_area(points: &[Point], triangles: &[Triangle]) -> i128 {
    triangles
        .iter()
        .map(|t| -turn_value(points[t.x], points[t.y], points[t.z]))
        .sum()
}

fn shoelace(polygon: &[Point]) -> i128 {
    let n = polygon.len();
    let mut sum: i128 = 0;
    for i in 0..n {
        let (a, b) = (polygon[i], polygon[(i + 1) % n]);
        sum += a.x as i128 * b.y as i128 - b.x as i128 * a.y as i128;
    }
    sum.abs()
}

fn triangulate(polygon: &[Point]) -> (Vec<Triangle>, Vec<Point>) {
    triangulate_polygons_face(&[polygon.to_vec()]).unwrap()
}

/// Whether two triangles have the same corners in the same sense.
fn same_triangle(a: &PointTriangle, b: &PointTriangle) -> bool {
    let turns = [(b.p1, b.p2, b.p3), (b.p2, b.p3, b.p1), (b.p3, b.p1, b.p2)];
    turns.contains(&(a.p1, a.p2, a.p3))
}

#[test]
fn test_monotone_polygon_simple() {
    let top = Point::new(0, 10);
    let left = Point::new(-1, 7);
    let right = Point::new(1, 5);
    let bottom = Point::new(0, 0);
    let mut poly = MonotonePolygon::new(top);
    assert!(!poly.finished());
    poly.left.push(left);
    poly.right.push(right);
    assert!(!poly.finished());
    poly.bottom = Some(bottom);
    assert!(poly.finished());
    let result = triangulate_monotone_polygon(&poly);
    assert_eq!(result.len(), 2);
    assert!(same_triangle(&result[0], &PointTriangle::new(top, left, right)));
    assert!(same_triangle(&result[1], &PointTriangle::new(left, right, bottom)));
    assert_eq!(result[0], PointTriangle::new(right, top, left));
    assert_eq!(result[1], PointTriangle::new(bottom, left, right));
}

#[test]
fn monotone_polygon_without_chains_has_no_triangle() {
    let mut poly = MonotonePolygon::new_top(Point::new(0, 5));
    poly.bottom = Some(Point::new(0, 0));
    assert!(triangulate_monotone_polygon(&poly).is_empty());
}

#[test]
fn monotone_polygon_with_one_chain_point_is_one_triangle() {
    let mut poly = MonotonePolygon::new(Point::new(0, 5));
    poly.left.push(Point::new(-2, 2));
    poly.bottom = Some(Point::new(0, 0));
    assert_eq!(
        triangulate_monotone_polygon(&poly),
        vec![PointTriangle::new(Point::new(0, 0), Point::new(0, 5), Point::new(-2, 2))]
    );
    let copy = poly.clone();
    assert_eq!(copy, poly);
}

fn doubled_area_of(triangles: &[PointTriangle]) -> i128 {
    triangles.iter().map(|t| -turn_value(t.p1, t.p2, t.p3)).sum()
}

#[test]
fn same_side_point_on_the_left_cuts_a_clockwise_corner() {
    // (0,3), (2,2), (2,1) turn clockwise: the corner at (2,2) is cut off
    let mut poly = MonotonePolygon::new(Point::new(0, 3));
    poly.left = pts(&[(2, 2), (2, 1)]);
    poly.bottom = Some(Point::new(0, 0));
    let result = triangulate_monotone_polygon(&poly);
    assert_eq!(
        result,
        vec![
            PointTriangle::new(Point::new(2, 1), Point::new(2, 2), Point::new(0, 3)),
            PointTriangle::new(Point::new(0, 0), Point::new(0, 3), Point::new(2, 1)),
        ]
    );
    assert_eq!(result[0], PointTriangle { p1: Point::new(2, 1), p2: Point::new(2, 2), p3: Point::new(0, 3) });
    assert_eq!(result[1], PointTriangle { p1: Point::new(2, 1), p2: Point::new(0, 3), p3: Point::new(0, 0) });
    assert_eq!(doubled_area_of(&result), 8);
    assert_eq!(shoelace(&pts(&[(0, 3), (2, 2), (2, 1), (0, 0)])), 8);
    assert!(lies_apart(&poly));
    assert!(!is_well_turned(&poly));
}

#[test]
fn same_side_point_on_the_right_cuts_a_counter_clockwise_corner() {
    // (0,3), (-2,2), (-2,1) turn counter-clockwise: the corner at (-2,2) is cut off
    let mut poly = MonotonePolygon::new(Point::new(0, 3));
    poly.right = pts(&[(-2, 2), (-2, 1)]);
    poly.bottom = Some(Point::new(0, 0));
    let result = triangulate_monotone_polygon(&poly);
    assert_eq!(
        result,
        vec![
            PointTriangle { p1: Point::new(0, 3), p2: Point::new(-2, 2), p3: Point::new(-2, 1) },
            PointTriangle { p1: Point::new(0, 0), p2: Point::new(0, 3), p3: Point::new(-2, 1) },
        ]
    );
    assert_eq!(doubled_area_of(&result), 8);
    assert!(lies_apart(&poly));
}

#[test]
fn same_side_points_on_the_right_keep_a_clockwise_corner() {
    // (0,10), (3,8), (2,5) turn clockwise: the corner at (3,8) stays;
    // (3,8), (2,5), (3,2) turn counter-clockwise: the corner at (2,5) is cut off
    let mut poly = MonotonePolygon::new(Point::new(0, 10));
    poly.right = pts(&[(3, 8), (2, 5), (3, 2)]);
    poly.bottom = Some(Point::new(0, 0));
    let result = triangulate_monotone_polygon(&poly);
    assert_eq!(
        result,
        vec![
            PointTriangle { p1: Point::new(3, 8), p2: Point::new(2, 5), p3: Point::new(3, 2) },
            PointTriangle { p1: Point::new(3, 8), p2: Point::new(0, 10), p3: Point::new(0, 0) },
            PointTriangle { p1: Point::new(3, 2), p2: Point::new(3, 8), p3: Point::new(0, 0) },
        ]
    );
    // the triangle that is cut off lies in the dent: 6 + 30 + 18 against 42
    assert_eq!(doubled_area_of(&result), 54);
    assert_eq!(shoelace(&pts(&[(0, 10), (3, 8), (2, 5), (3, 2), (0, 0)])), 42);
    assert!(!is_well_turned(&poly));
    assert!(!lies_apart(&poly));
}

#[test]
fn same_side_points_on_the_left_cut_flat_corners() {
    // (0,10), (-3,8), (-2,5) turn counter-clockwise: the corner at (-3,8) stays;
    // (-3,8), (-2,5), (-1,2) lie on a line: the corner at (-2,5) is cut off
    let mut poly = MonotonePolygon::new(Point::new(0, 10));
    poly.left = pts(&[(-3, 8), (-2, 5), (-1, 2)]);
    poly.bottom = Some(Point::new(0, 0));
    let result = triangulate_monotone_polygon(&poly);
    assert_eq!(
        result,
        vec![
            PointTriangle { p1: Point::new(-1, 2), p2: Point::new(-2, 5), p3: Point::new(-3, 8) },
            PointTriangle { p1: Point::new(0, 0), p2: Point::new(0, 10), p3: Point::new(-3, 8) },
            PointTriangle { p1: Point::new(0, 0), p2: Point::new(-3, 8), p3: Point::new(-1, 2) },
        ]
    );
    assert_eq!(doubled_area_of(&result), 32);
    assert_eq!(shoelace(&pts(&[(0, 10), (-3, 8), (-2, 5), (-1, 2), (0, 0)])), 32);
    assert!(is_well_turned(&poly));
    // a chain that bends outwards all the way is left to the fan of the bottom
    let mut round = MonotonePolygon::new(Point::new(0, 10));
    round.left = pts(&[(-3, 8), (-4, 5), (-3, 2)]);
    round.bottom = Some(Point::new(0, 0));
    let result = triangulate_monotone_polygon(&round);
    assert_eq!(
        result,
        vec![
            PointTriangle { p1: Point::new(0, 0), p2: Point::new(0, 10), p3: Point::new(-3, 8) },
            PointTriangle { p1: Point::new(0, 0), p2: Point::new(-3, 8), p3: Point::new(-4, 5) },
            PointTriangle { p1: Point::new(0, 0), p2: Point::new(-4, 5), p3: Point::new(-3, 2) },
        ]
    );
    assert_eq!(doubled_area_of(&result), shoelace(&pts(&[(0, 10), (-3, 8), (-4, 5), (-3, 2), (0, 0)])));
    assert!(is_well_turned(&round));
}

#[test]
fn piece_beside_a_hole_has_a_corner_cut_off_in_the_hole() {
    // (2,2), (2,1), (1,1) turn clockwise on the left chain
    let mut poly = MonotonePolygon::new(Point::new(3, 3));
    poly.left = pts(&[(2, 2), (2, 1), (1, 1)]);
    poly.bottom = Some(Point::new(3, 0));
    let result = triangulate_monotone_polygon(&poly);
    assert_eq!(result.len(), 3);
    let hole_half = PointTriangle::new(Point::new(1, 1), Point::new(2, 1), Point::new(2, 2));
    assert_eq!(result[0], hole_half);
    assert_eq!(doubled_area_of(&result), 7);
    assert_eq!(shoelace(&pts(&[(3, 3), (2, 2), (2, 1), (1, 1), (3, 0)])), 5);
    assert!(!is_well_turned(&poly));
}

#[test]
fn pentagon_with_a_dent_has_a_corner_cut_off_in_the_dent() {
    let pentagon = pts(&[(4, 4), (1, 3), (2, 2), (0, 1), (4, 0)]);
    let (triangles, points) = triangulate(&pentagon);
    assert_eq!(triangles.len(), 3);
    assert_eq!(points.len(), 5);
    assert_eq!(shoelace(&pentagon), 18);
    // (1,3), (2,2), (0,1) turn clockwise on the left chain: 3 + 12 + 9
    assert_eq!(doubled_area(&points, &triangles), 24);
    let pieces = sweeping_line_triangulation(calc_dedup_edges(&[pentagon.clone()])).unwrap();
    assert!(!all_pieces_well_turned(&pieces));
}

#[test]
fn triangle_gives_one_triangle() {
    let shapes = [
        [(0, 0), (2, 0), (1, 2)],
        [(0, 0), (1, 2), (2, 0)],
        [(0, 0), (4, 0), (0, 4)],
        [(0, 0), (4, 4), (0, 4)],
        [(-5, 3), (7, 3), (1, -9)],
        [(0, 0), (1, 5), (2, 3)],
    ];
    for shape in shapes {
        let polygon = pts(&shape);
        let (triangles, points) = triangulate(&polygon);
        assert_eq!(triangles.len(), 1);
        assert_eq!(points.len(), 3);
        assert_eq!(doubled_area(&points, &triangles), shoelace(&polygon));
    }
}

#[test]
fn test_diamond() {
    let diamond = pts(&[(1, 0), (2, 1), (1, 2), (0, 1)]);
    let (triangles, points) = triangulate(&diamond);
    assert_eq!(triangles.len(), 2);
    assert_eq!(points.len(), 4);
    let mut found = points.clone();
    let mut expected = diamond.clone();
    found.sort_by_key(|p| p.key());
    expected.sort_by_key(|p| p.key());
    assert_eq!(found, expected);
    assert_eq!(doubled_area(&points, &triangles), 4);
}

#[test]
fn test_triangulate_polygon_non_convex() {
    let cases: Vec<(Vec<(i32, i32)>, Vec<[usize; 3]>)> = vec![
        (vec![(0, 0), (1, 1), (0, 2), (2, 1)], vec![[3, 2, 1], [0, 3, 1]]),
        (
            vec![(0, 0), (0, 2), (2, 4), (4, 2), (4, 0), (2, 1)],
            vec![[4, 3, 5], [3, 2, 1], [5, 3, 1], [5, 1, 0]],
        ),
        (
            vec![(0, 2), (0, 4), (2, 3), (4, 4), (4, 2), (2, 1)],
            vec![[4, 3, 2], [2, 1, 0], [4, 2, 0], [5, 4, 0]],
        ),
        (
            vec![(0, 2), (0, 4), (2, 1), (4, 4), (4, 2), (2, -1)],
            vec![[2, 1, 0], [2, 0, 5], [4, 3, 2], [5, 4, 2]],
        ),
        (vec![(0, 0), (1, 2), (2, 0), (1, 1)], vec![[2, 1, 3], [3, 1, 0]]),
    ];
    for (polygon, expected) in cases {
        let polygon = pts(&polygon);
        let (triangles, points) = triangulate(&polygon);
        assert_eq!(renumerate(&polygon, &points, &triangles), expected);
        assert_eq!(doubled_area(&points, &triangles), shoelace(&polygon));
    }
}

#[test]
fn square_with_square_hole_gives_eight_triangles() {
    let polygon = pts(&[
        (0, 0),
        (3, 0),
        (3, 3),
        (0, 3),
        (0, 0),
        (1, 1),
        (2, 1),
        (2, 2),
        (1, 2),
        (1, 1),
    ]);
    let edges = calc_dedup_edges(&[polygon.clone()]);
    let polygons = sweeping_line_triangulation(edges).unwrap();
    assert_eq!(polygons.len(), 2);
    assert_eq!(polygons[0].top, Point::new(3, 3));
    assert_eq!(polygons[0].bottom, Some(Point::new(3, 0)));
    assert_eq!(polygons[0].left, pts(&[(2, 2), (2, 1), (1, 1)]));
    assert!(polygons[0].right.is_empty());
    assert_eq!(polygons[1].top, Point::new(3, 3));
    assert_eq!(polygons[1].bottom, Some(Point::new(0, 0)));
    assert_eq!(polygons[1].left, pts(&[(0, 3)]));
    assert_eq!(polygons[1].right, pts(&[(2, 2), (1, 2), (1, 1), (3, 0)]));
    let (triangles, points) = triangulate(&polygon);
    assert_eq!(points.len(), 8);
    assert_eq!(triangles.len(), 8);
    for p in &points {
        assert!(polygon.contains(p));
    }
    // the square less the hole has 16; both pieces have corners cut off in
    // the hole, the one at (2,2), (2,1), (1,1), the other at (2,2), (1,2), (1,1)
    assert!(!is_well_turned(&polygons[0]));
    assert!(!is_well_turned(&polygons[1]));
    assert_eq!(doubled_area(&points, &triangles), 26);
}

#[test]
fn no_edges_give_no_triangles() {
    let (triangles, points) = face_triangulation(Vec::new()).unwrap();
    assert!(triangles.is_empty() && points.is_empty());
    assert!(sweeping_line_triangulation(Vec::new()).unwrap().is_empty());
}

#[test]
fn index_triangles_numbers_corners_in_order() {
    let a = Point::new(0, 0);
    let b = Point::new(2, 0);
    let c = Point::new(0, 2);
    let d = Point::new(2, 2);
    let (triangles, points) =
        index_triangles(&vec![PointTriangle::new(a, b, c), PointTriangle::new(b, d, c)]);
    assert_eq!(points, vec![a, b, c, d]);
    assert_eq!(triangles, vec![Triangle::new(0, 1, 2), Triangle::new(1, 3, 2)]);
}

#[test]
fn point_types_of_a_non_convex_polygon() {
    let polygon = pts(&[(0, 0), (1, 2), (2, 0), (1, 1)]);
    let edges = calc_dedup_edges(&[polygon]);
    let point_to_edges = get_points_edges(&edges);
    assert_eq!(point_to_edges.points, pts(&[(1, 2), (1, 1), (2, 0), (0, 0)]));
    assert_eq!(
        get_point_type(Point::new(1, 2), &point_to_edges),
        PointType::Split(seg(1, 2, 0, 0), seg(1, 2, 2, 0))
    );
    assert_eq!(
        get_point_type(Point::new(1, 1), &point_to_edges),
        PointType::Split(seg(1, 1, 0, 0), seg(1, 1, 2, 0))
    );
    assert_eq!(
        get_point_type(Point::new(2, 0), &point_to_edges),
        PointType::Merge(seg(2, 0, 1, 1), seg(2, 0, 1, 2))
    );
    let square = get_points_edges(&calc_dedup_edges(&[pts(&[(0, 0), (2, 1), (0, 2), (-2, 1)])]));
    assert_eq!(
        get_point_type(Point::new(2, 1), &square),
        PointType::Normal(seg(2, 1, 0, 2), seg(2, 1, 0, 0))
    );
    let star = get_points_edges(&[seg(0, 0, 1, 1), seg(0, 0, -1, 1), seg(0, 0, 0, -1)]);
    assert_eq!(
        get_point_type(Point::new(0, 0), &star),
        PointType::Intersection(vec![seg(0, 0, 1, 1), seg(0, 0, -1, 1), seg(0, 0, 0, -1)])
    );
}

#[test]
fn point_lists_are_sorted_from_the_highest_opposite_point_down() {
    let edges = vec![seg(0, 0, 1, 1), seg(0, 0, -1, 1), seg(0, 0, 0, -1), seg(1, 1, -1, 1)];
    let point_to_edges = get_points_edges(&edges);
    assert_eq!(point_to_edges.points, pts(&[(1, 1), (-1, 1), (0, 0), (0, -1)]));
    let at_origin: Vec<(usize, Point)> = point_to_edges.infos[2]
        .iter()
        .map(|i| (i.edge_index, i.opposite_point))
        .collect();
    assert_eq!(
        at_origin,
        vec![(0, Point::new(1, 1)), (1, Point::new(-1, 1)), (2, Point::new(0, -1))]
    );
    assert_eq!(point_to_edges.find(Point::new(0, 0)), Some(2));
    assert_eq!(point_to_edges.find(Point::new(5, 5)), None);
}

#[test]
fn figure_eight_meets_in_a_point_of_four_edges() {
    // two triangles that touch in (2, 2)
    let eight = pts(&[(0, 4), (4, 4), (2, 2), (4, 0), (0, 0), (2, 2)]);
    let (triangles, points) = triangulate(&eight);
    assert_eq!(triangles.len(), 2);
    assert_eq!(points.len(), 5);
    assert_eq!(doubled_area(&points, &triangles), 16);
}

#[test]
fn sweep_steps_on_a_builder() {
    let mut builder = MonotonePolygonBuilder::new();
    let p = Point::new(0, 4);
    let left = seg(0, 4, -2, 0);
    let right = seg(0, 4, 2, 2);
    builder.process_split_point(p, left, right);
    assert_eq!(builder.intervals.len(), 1);
    assert_eq!(builder.line(&left), Some(0));
    assert_eq!(builder.line(&right), Some(0));
    assert_eq!(builder.line(&seg(9, 9, 8, 8)), None);
    assert_eq!(builder.find_interval_with_point(Point::new(0, 3)), Some(0));
    assert_eq!(builder.find_interval_with_point(Point::new(5, 3)), None);
    // the right side turns at (2, 2)
    let lower = seg(2, 2, 0, 0);
    assert_eq!(builder.process_normal_point(Point::new(2, 2), right, lower), Ok(()));
    assert_eq!(builder.line(&right), None);
    assert_eq!(builder.line(&lower), Some(0));
    assert_eq!(builder.intervals[0].right_segment, lower);
    assert_eq!(builder.intervals[0].polygons_list[0].right, pts(&[(2, 2)]));
    // a segment that is not active cannot turn
    assert_eq!(
        builder.process_normal_point(Point::new(2, 2), right, lower),
        Err(SweepError::MissingInterval)
    );
    // nor can it end
    assert_eq!(
        builder.process_merge_point(Point::new(0, 0), left, right),
        Err(SweepError::MissingInterval)
    );
    assert!(builder.monotone_polygons.is_empty());
}

#[test]
fn interval_sides() {
    let a = seg(0, 4, -2, 0);
    let b = seg(0, 4, 2, 0);
    let c = seg(2, 0, 2, -4);
    let mut interval = Interval::new(Point::new(0, 4), a, b);
    assert_eq!(interval.opposite_segment(&a), b);
    assert_eq!(interval.opposite_segment(&b), a);
    interval.replace_segment(&b, c);
    assert_eq!(interval.right_segment, c);
    assert_eq!(interval.left_segment, a);
    let with = Interval::with_polygon(Point::new(0, 4), a, b, MonotonePolygon::new(Point::new(0, 4)));
    assert_eq!(with.polygons_list.len(), 1);
    assert_eq!(with.last_seen, Point::new(0, 4));
}

#[test]
fn single_edge_cannot_be_swept() {
    assert_eq!(
        sweeping_line_triangulation(vec![seg(0, 0, 1, 1)]),
        Err(SweepError::UnpairedSegment)
    );
}

#[test]
fn sweep_errors_have_messages() {
    assert_eq!(SweepError::MissingInterval.message(), "Segment not found in the map");
    assert_eq!(SweepError::SegmentNotInInterval.message(), "Segment not found in interval");
    assert!(!SweepError::BrokenInterval.message().is_empty());
    assert!(!SweepError::UnpairedSegment.message().is_empty());
}

#[test]
fn builder_finds_the_left_and_the_right_edge() {
    let edges = calc_dedup_edges(&[pts(&[(0, 0), (1, 2), (2, 0), (1, 1)])]);
    let builder = MonotonePolygonBuilder::new_with_edges(edges);
    assert_eq!(
        builder.get_left_right_edges_top(&Point::new(1, 2)),
        (seg(1, 2, 0, 0), seg(1, 2, 2, 0))
    );
    assert_eq!(
        builder.get_left_right_edges_bottom(&Point::new(0, 0)),
        (seg(0, 0, 1, 2), seg(0, 0, 1, 1))
    );
}

#[test]
fn merge_joins_two_intervals() {
    let mut builder = MonotonePolygonBuilder::new();
    let (a, b) = (seg(0, 4, -1, 0), seg(0, 4, 2, 2));
    let (c, d) = (seg(4, 4, 2, 2), seg(4, 4, 5, 0));
    builder.process_start_point(Point::new(4, 4), c, d);
    builder.process_start_point(Point::new(0, 4), a, b);
    assert_eq!(builder.process_merge_point(Point::new(2, 2), b, c), Ok(()));
    assert_eq!(builder.line(&b), None);
    assert_eq!(builder.line(&c), None);
    assert_eq!(builder.line(&a), Some(1));
    assert_eq!(builder.line(&d), Some(1));
    assert_eq!(builder.intervals[1].left_segment, a);
    assert_eq!(builder.intervals[1].right_segment, d);
    assert_eq!(builder.intervals[1].polygons_list.len(), 2);
    assert_eq!(builder.intervals[1].polygons_list[0].right, pts(&[(2, 2)]));
    assert_eq!(builder.intervals[1].polygons_list[1].left, pts(&[(2, 2)]));
    assert!(builder.intervals[0].polygons_list.is_empty());
    // the right side of the right interval cannot arrive as the right edge of a merge
    let mut other = MonotonePolygonBuilder::new();
    other.process_start_point(Point::new(4, 4), c, d);
    other.process_start_point(Point::new(0, 4), a, b);
    assert_eq!(
        other.process_merge_point(Point::new(2, 2), b, d),
        Err(SweepError::SegmentNotInInterval)
    );
    assert_eq!(other.line(&b), Some(1));
    // both sides of one interval end it
    assert_eq!(other.process_merge_point(Point::new(2, 2), a, b), Ok(()));
    assert_eq!(other.monotone_polygons.len(), 1);
    assert_eq!(other.monotone_polygons[0].bottom, Some(Point::new(2, 2)));
    assert_eq!(other.monotone_polygons[0].top, Point::new(0, 4));
}

#[test]
fn normal_point_of_a_stale_segment_is_refused() {
    let mut builder = MonotonePolygonBuilder::new();
    let (a, b) = (seg(0, 4, -1, 0), seg(0, 4, 2, 2));
    builder.process_start_point(Point::new(0, 4), a, b);
    // a third segment is entered for the interval without being one of its sides
    let c = seg(1, 4, 1, 0);
    builder.segment_to_line.insert(c.key(), 0);
    assert_eq!(
        builder.process_normal_point(Point::new(1, 0), c, seg(1, 0, 1, -3)),
        Err(SweepError::SegmentNotInInterval)
    );
    // the other side of the interval is no longer active
    builder.segment_to_line.remove(&a.key());
    assert_eq!(
        builder.process_normal_point(Point::new(2, 2), b, seg(2, 2, 1, -3)),
        Err(SweepError::BrokenInterval)
    );
    assert_eq!(builder.intervals[0].right_segment, b);
}

#[test]
fn split_inside_an_interval() {
    let mut builder = MonotonePolygonBuilder::new();
    let (a, b) = (seg(0, 6, -4, 0), seg(0, 6, 4, 0));
    builder.process_start_point(Point::new(0, 6), a, b);
    let (c, d) = (seg(0, 3, -1, 0), seg(0, 3, 1, 0));
    builder.process_split_point(Point::new(0, 3), c, d);
    assert_eq!(builder.intervals.len(), 2);
    assert_eq!(builder.intervals[0].left_segment, a);
    assert_eq!(builder.intervals[0].right_segment, c);
    assert_eq!(builder.intervals[1].left_segment, d);
    assert_eq!(builder.intervals[1].right_segment, b);
    assert_eq!(builder.line(&b), Some(1));
    assert_eq!(builder.line(&c), Some(0));
    assert_eq!(builder.line(&d), Some(1));
    assert_eq!(builder.intervals[0].polygons_list[0].right, pts(&[(0, 3)]));
    assert_eq!(builder.intervals[1].polygons_list[0].top, Point::new(0, 6));
    assert_eq!(builder.intervals[1].polygons_list[0].left, pts(&[(0, 3)]));
}

#[test]
fn bow_tie_goes_on_through_a_point_of_four_edges() {
    // two triangles that touch in (2, 1), side by side
    let bow_tie = pts(&[(0, 0), (2, 1), (4, 0), (4, 2), (2, 1), (0, 2)]);
    let edges = calc_dedup_edges(&[bow_tie.clone()]);
    let polygons = sweeping_line_triangulation(edges).unwrap();
    assert_eq!(polygons.len(), 2);
    assert_eq!(polygons[0].top, Point::new(4, 2));
    assert_eq!(polygons[0].left, pts(&[(2, 1)]));
    assert_eq!(polygons[0].bottom, Some(Point::new(4, 0)));
    assert_eq!(polygons[1].top, Point::new(0, 2));
    assert_eq!(polygons[1].right, pts(&[(2, 1)]));
    assert_eq!(polygons[1].bottom, Some(Point::new(0, 0)));
    let (triangles, points) = triangulate(&bow_tie);
    assert_eq!(triangles.len(), 2);
    assert_eq!(points.len(), 5);
    assert_eq!(doubled_area(&points, &triangles), 8);
}

#[test]
fn monotone_polygon_has_two_triangles_fewer_than_points() {
    let mut poly = MonotonePolygon::new(Point::new(0, 10));
    poly.left = pts(&[(-3, 8), (-4, 5), (-1, 2)]);
    poly.right = pts(&[(3, 9), (2, 6), (5, 4), (1, 1)]);
    poly.bottom = Some(Point::new(0, 0));
    assert_eq!(triangulate_monotone_polygon(&poly).len(), 7);
}

#[test]
fn pieces_that_are_well_turned_have_the_area_of_the_polygon() {
    let shapes: Vec<Vec<(i32, i32)>> = vec![
        vec![(1, 0), (2, 1), (1, 2), (0, 1)],
        vec![(0, 0), (4, 0), (5, 3), (2, 6), (-1, 3)],
        vec![(0, 0), (1, 1), (0, 2), (2, 1)],
    ];
    let areas = [4, 48, 2];
    for (shape, area) in shapes.iter().zip(areas) {
        let polygon = pts(shape);
        assert_eq!(shoelace(&polygon), area);
        let pieces = sweeping_line_triangulation(calc_dedup_edges(&[polygon.clone()])).unwrap();
        assert!(all_pieces_well_turned(&pieces), "{:?}", polygon);
        let (triangles, points) = triangulate(&polygon);
        assert_eq!(doubled_area(&points, &triangles), area);
    }
}

#[test]
fn polygon_with_its_left_chain_at_higher_x_lies_apart() {
    let mut poly = MonotonePolygon::new(Point::new(0, 10));
    poly.left = pts(&[(3, 5)]);
    poly.right = pts(&[(-3, 5)]);
    poly.bottom = Some(Point::new(0, 0));
    assert!(lies_apart(&poly));
    assert!(!is_well_turned(&poly));
    assert_eq!(doubled_area_of(&triangulate_monotone_polygon(&poly)), 60);
    let mut other = MonotonePolygon::new(Point::new(0, 10));
    other.left = pts(&[(-3, 5)]);
    other.right = pts(&[(3, 5)]);
    other.bottom = Some(Point::new(0, 0));
    assert!(is_well_turned(&other));
    assert!(!lies_apart(&other));
    assert_eq!(doubled_area_of(&triangulate_monotone_polygon(&other)), 60);
}

#[test]
fn chains_that_do_not_descend_do_not_lie_apart() {
    let mut poly = MonotonePolygon::new(Point::new(0, 10));
    poly.left = pts(&[(3, 5), (3, 7)]);
    poly.bottom = Some(Point::new(0, 0));
    assert!(!lies_apart(&poly));
    let mut twice = MonotonePolygon::new(Point::new(0, 10));
    twice.left = pts(&[(0, 5)]);
    twice.right = pts(&[(0, 5)]);
    twice.bottom = Some(Point::new(0, 0));
    assert!(!lies_apart(&twice));
    assert!(is_well_turned(&twice));
}

#[test]
fn chains_with_dents_that_lie_apart_are_filled_exactly() {
    let mut poly = MonotonePolygon::new(Point::new(0, 10));
    poly.left = pts(&[(4, 8), (1, 6), (4, 4), (1, 2)]);
    poly.right = pts(&[(-4, 9), (-1, 7), (-4, 5), (-1, 3)]);
    poly.bottom = Some(Point::new(0, 0));
    assert!(lies_apart(&poly));
    let outline = pts(&[
        (0, 10), (-4, 9), (-1, 7), (-4, 5), (-1, 3), (0, 0), (1, 2), (4, 4), (1, 6), (4, 8),
    ]);
    let result = triangulate_monotone_polygon(&poly);
    assert_eq!(result.len(), 8);
    assert_eq!(doubled_area_of(&result), shoelace(&outline));
    // the same chains under the other names: the points change sides one by
    // one, so that no corner is cut off, and every fan is turned with the
    // boundary
    let mut named = MonotonePolygon::new(Point::new(0, 10));
    named.left = pts(&[(-4, 9), (-1, 7), (-4, 5), (-1, 3)]);
    named.right = pts(&[(4, 8), (1, 6), (4, 4), (1, 2)]);
    named.bottom = Some(Point::new(0, 0));
    assert!(!lies_apart(&named));
    assert!(is_well_turned(&named));
    assert_eq!(doubled_area_of(&triangulate_monotone_polygon(&named)), shoelace(&outline));
    // a right point beyond the left chain
    let mut crossed = MonotonePolygon::new(Point::new(0, 10));
    crossed.right = pts(&[(5, 5)]);
    crossed.left = pts(&[(2, 6), (2, 4)]);
    crossed.bottom = Some(Point::new(0, 0));
    assert!(!lies_apart(&crossed));
}

/// Polygons that are seen whole from the origin: corners at rising angles, at
/// distances drawn by a fixed rule.
fn star_polygons(count: usize) -> Vec<Vec<Point>> {
    let mut state: u64 = 0x2545_f491_4f6c_dd1d;
    let mut draw = move |limit: u64| {
        state ^= state << 13;
        state ^= state >> 7;
        state ^= state << 17;
        state % limit
    };
    let mut polygons = Vec::new();
    for _ in 0..count {
        let n = 3 + draw(10) as usize;
        let mut polygon = Vec::new();
        for i in 0..n {
            let angle = (i as f64 + 0.5 * (draw(100) as f64) / 100.0) / n as f64
                * std::f64::consts::TAU;
            let radius = 200.0 + draw(800) as f64;
            polygon.push(Point::new(
                (radius * angle.cos()).round() as i32,
                (radius * angle.sin()).round() as i32,
            ));
        }
        polygons.push(polygon);
    }
    polygons
}

#[test]
fn star_shaped_polygons_are_covered_and_filled_exactly_where_well_turned() {
    let mut exact = 0;
    for polygon in star_polygons(300) {
        let pieces = sweeping_line_triangulation(calc_dedup_edges(&[polygon.clone()])).unwrap();
        let (triangles, points) = triangulate(&polygon);
        assert_eq!(triangles.len(), polygon.len() - 2, "{:?}", polygon);
        assert!(doubled_area(&points, &triangles) >= shoelace(&polygon), "{:?}", polygon);
        if all_pieces_well_turned(&pieces) {
            exact += 1;
            assert_eq!(doubled_area(&points, &triangles), shoelace(&polygon), "{:?}", polygon);
        } else {
            assert!(doubled_area(&points, &triangles) > shoelace(&polygon), "{:?}", polygon);
        }
    }
    assert!(exact >= 150);
    assert!(exact < 300);
}

#[test]
fn pieces_closed_together_below_a_hole_reach_across_an_edge() {
    // Below the hole a piece starts at (7, -21). It is joined to the piece on
    // the right at (42, -25) and to the piece on the left at (-1, -42), and
    // the corner (-339, -163) of the outer polygon closes it from beyond the
    // edge between (7, -21) and (-1, -42).
    let outer = pts(&[(734, 46), (-170, 259), (-339, -163), (213, -308)]);
    let hole = pts(&[
        (25, 2), (27, 28), (6, 61), (-37, 63), (-75, 48), (-62, -2), (-32, -24), (-1, -42),
        (7, -21), (42, -25),
    ]);
    let list = [outer.clone(), hole.clone()];
    let pieces = sweeping_line_triangulation(calc_dedup_edges(&list)).unwrap();
    assert_eq!(pieces.len(), 3);
    let mut left = MonotonePolygon::new(Point::new(-170, 259));
    left.right = pts(&[(-37, 63), (-75, 48), (-62, -2), (-32, -24), (-1, -42)]);
    left.bottom = Some(Point::new(-339, -163));
    let mut middle = MonotonePolygon::new(Point::new(7, -21));
    middle.left = pts(&[(-1, -42)]);
    middle.right = pts(&[(42, -25)]);
    middle.bottom = Some(Point::new(-339, -163));
    let mut right = MonotonePolygon::new(Point::new(-170, 259));
    right.left = pts(&[(-37, 63), (6, 61), (27, 28), (25, 2), (42, -25), (-339, -163)]);
    right.right = pts(&[(734, 46)]);
    right.bottom = Some(Point::new(213, -308));
    assert_eq!(pieces, vec![left, middle, right]);
    // the middle piece has no corner to cut off, and its last fan is turned
    // against the boundary
    assert!(!is_well_turned(&pieces[1]));
    assert_eq!(doubled_area_of(&triangulate_monotone_polygon(&pieces[1])), 1310);
    let (triangles, points) = triangulate_polygons_face(&list).unwrap();
    assert_eq!(shoelace(&outer) - shoelace(&hole), 673128);
    assert!(doubled_area(&points, &triangles) > 673128);
}
