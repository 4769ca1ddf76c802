use triangulation::point::{
    vector_length,
    floor_div, orientation, turn_value, Orientation, Point, PointTriangle, Segment, Triangle,
    Vector,
};

#[test]
fn test_segment_order() {
    let s1 = Segment::new(Point::new(0, 0), Point::new(1, 1));
    let s2 = Segment::new(Point::new(1, 1), Point::new(0, 0));
    assert_eq!(s1, s2);
    assert_eq!(s1.bottom, Point::new(0, 0));
    assert_eq!(s1.top, Point::new(1, 1));
}

#[test]
fn segment_with_equal_height_is_ordered_by_x() {
    let s = Segment::new(Point::new(5, 2), Point::new(-3, 2));
    assert_eq!(s.bottom, Point::new(-3, 2));
    assert_eq!(s.top, Point::new(5, 2));
    assert!(s.is_horizontal());
    assert!(!s.is_vertical());
    let v = Segment::new_i((1, 7), (1, -7));
    assert!(v.is_vertical());
    assert!(!v.is_horizontal());
    assert_eq!(v.top, Point::new(1, 7));
}

#[test]
fn point_order_is_by_y_then_x() {
    assert!(Point::new(5, 0) < Point::new(0, 1));
    assert!(Point::new(0, 1) < Point::new(1, 1));
    assert!(!(Point::new(1, 1) < Point::new(1, 1)));
    assert!(Point::new(1, 1) <= Point::new(1, 1));
    assert!(Point::new(2, -1) > Point::new(100, -2));
}

#[test]
fn point_keys_grow_with_the_points() {
    let low = Point::new(i32::MAX, -1);
    let high = Point::new(i32::MIN, 0);
    assert!(low < high);
    assert!(low.key() < high.key());
    assert_eq!(Point::new(i32::MIN, i32::MIN).key(), 0);
    assert_eq!(Point::new(i32::MAX, i32::MAX).key(), u64::MAX);
    assert_eq!(Point::new(0, 0).key(), 0x8000_0000_8000_0000);
    let s = Segment::new(Point::new(0, 0), Point::new(1, 0));
    assert_eq!(
        s.key(),
        (0x8000_0000_8000_0000u128 << 64) + 0x8000_0000_8000_0001u128
    );
}

#[test]
fn test_vector_add() {
    let cases = [
        (1, 0, 1, 1, 2, 1),
        (0, 0, 1, 1, 1, 1),
        (1, 1, -1, -1, 0, 0),
        (10, 20, 30, 40, 40, 60),
    ];
    for (x1, y1, x2, y2, ex, ey) in cases {
        assert_eq!(
            Point::new(x1, y1).add_vector(&Vector::new(x2, y2)),
            Point::new(ex, ey)
        );
        assert_eq!(
            Point::new(x1, y1).checked_add_vector(&Vector::new(x2, y2)),
            Some(Point::new(ex, ey))
        );
    }
    assert_eq!(
        Point::new(i32::MAX, 0).checked_add_vector(&Vector::new(1, 0)),
        None
    );
    assert_eq!(
        Point::new(0, i32::MIN).checked_add_vector(&Vector::new(0, -1)),
        None
    );
}

#[test]
fn point_sum_and_difference() {
    let a = Point::new(i32::MAX, i32::MIN);
    let b = Point::new(i32::MIN, i32::MAX);
    assert_eq!(a.sub(&b), Vector::new(4294967295, -4294967295));
    assert_eq!(a.add(&b), Vector::new(-1, -1));
    assert_eq!(Point::new(3, 4).add(&Point::new(1, 2)), Vector::new(4, 6));
    assert_eq!(Point::new_i(3, 4), Point::new(3, 4));
}

#[test]
fn vector_scale() {
    assert_eq!(Vector::new(2, -3).scale(4), Vector::new(8, -12));
    assert_eq!(Vector::new(2, -3).checked_scale(-1), Some(Vector::new(-2, 3)));
    assert_eq!(Vector::new(i64::MAX, 1).checked_scale(2), None);
    assert_eq!(Vector::new(1, i64::MIN).checked_scale(-1), None);
}

#[test]
fn test_orientation() {
    let cases = [
        ((0, 0), (0, 1), (0, 2), Orientation::Collinear),
        ((0, 0), (0, 2), (0, 1), Orientation::Collinear),
        ((0, 2), (0, 0), (0, 1), Orientation::Collinear),
        ((0, 0), (0, 1), (1, 2), Orientation::Clockwise),
        ((0, 0), (0, 1), (-1, 2), Orientation::CounterClockwise),
        ((0, 0), (1, 0), (1, 1), Orientation::CounterClockwise),
        ((1, 0), (1, 1), (1, -1), Orientation::Collinear),
        ((0, 0), (1, 1), (-1, 1), Orientation::CounterClockwise),
        ((0, 0), (1, 1), (2, 2), Orientation::Collinear),
        ((0, 0), (1, 1), (2, 0), Orientation::Clockwise),
        ((0, 0), (1, 1), (0, 2), Orientation::CounterClockwise),
    ];
    for (p, q, r, expected) in cases {
        assert_eq!(
            orientation(Point::new(p.0, p.1), Point::new(q.0, q.1), Point::new(r.0, r.1)),
            expected
        );
    }
}

#[test]
fn orientation_is_exact_at_the_limits_of_the_grid() {
    let p = Point::new(i32::MIN, i32::MIN);
    let q = Point::new(i32::MAX, i32::MAX);
    assert_eq!(orientation(p, q, Point::new(0, 0)), Orientation::Collinear);
    assert_eq!(orientation(p, q, Point::new(1, 0)), Orientation::Clockwise);
    assert_eq!(orientation(p, q, Point::new(0, 1)), Orientation::CounterClockwise);
    assert_eq!(
        turn_value(p, Point::new(i32::MAX, i32::MIN), Point::new(i32::MIN, i32::MAX)),
        -(4294967295i128 * 4294967295i128)
    );
}

#[test]
fn orientation_swap_flips_the_turn() {
    let pts = [(0, 0), (3, 1), (-2, 5), (4, 4), (1, -7)];
    for &p in &pts {
        for &q in &pts {
            for &r in &pts {
                let (p, q, r) = (
                    Point::new(p.0, p.1),
                    Point::new(q.0, q.1),
                    Point::new(r.0, r.1),
                );
                let expected = match orientation(p, q, r) {
                    Orientation::Collinear => Orientation::Collinear,
                    Orientation::Clockwise => Orientation::CounterClockwise,
                    Orientation::CounterClockwise => Orientation::Clockwise,
                };
                assert_eq!(orientation(p, r, q), expected);
            }
        }
    }
}

#[test]
fn point_on_line_x_rounds_down() {
    let s = Segment::new_i((0, 0), (3, 2));
    assert_eq!(s.point_on_line_x(0), 0);
    assert_eq!(s.point_on_line_x(1), 1);
    assert_eq!(s.point_on_line_x(2), 3);
    assert_eq!(s.point_on_line_x(-1), -2);
    assert_eq!(s.point_on_line_x(4), 6);
    let h = Segment::new_i((7, 5), (2, 5));
    assert_eq!(h.point_on_line_x(100), 2);
    let d = Segment::new_i((0, 0), (-3, 2));
    assert_eq!(d.point_on_line_x(1), -2);
}

#[test]
fn segment_passes_left_and_right_of_points() {
    let s = Segment::new_i((0, 0), (3, 2));
    assert!(s.passes_left_of(Point::new(2, 1)));
    assert!(!s.passes_right_of(Point::new(2, 1)));
    assert!(s.passes_right_of(Point::new(1, 1)));
    assert!(!s.passes_left_of(Point::new(1, 1)));
    assert!(!s.passes_left_of(Point::new(3, 2)));
    assert!(!s.passes_right_of(Point::new(3, 2)));
    let h = Segment::new_i((2, 5), (7, 5));
    assert!(h.passes_left_of(Point::new(3, 0)));
    assert!(h.passes_right_of(Point::new(1, 9)));
}

#[test]
fn point_on_line_needs_the_line_and_the_box() {
    let s = Segment::new_i((0, 0), (4, 2));
    assert!(s.point_on_line(Point::new(2, 1)));
    assert!(s.point_on_line(Point::new(0, 0)));
    assert!(s.point_on_line(Point::new(4, 2)));
    assert!(!s.point_on_line(Point::new(6, 3)));
    assert!(!s.point_on_line(Point::new(2, 2)));
    assert!(!s.point_on_line(Point::new(1, 1)));
}

#[test]
fn floor_division() {
    assert_eq!(floor_div(7, 2), 3);
    assert_eq!(floor_div(-7, 2), -4);
    assert_eq!(floor_div(7, -2), -4);
    assert_eq!(floor_div(-7, -2), 3);
    assert_eq!(floor_div(-8, 2), -4);
    assert_eq!(floor_div(0, -5), 0);
}

#[test]
fn point_triangle_is_never_clockwise() {
    let a = Point::new(0, 0);
    let b = Point::new(0, 1);
    let c = Point::new(1, 2);
    assert_eq!(orientation(a, b, c), Orientation::Clockwise);
    let t = PointTriangle::new(a, b, c);
    assert_eq!((t.p1, t.p2, t.p3), (c, b, a));
    let u = PointTriangle::new(c, b, a);
    assert_eq!((u.p1, u.p2, u.p3), (c, b, a));
    let flat = PointTriangle::new(a, Point::new(1, 1), Point::new(2, 2));
    assert_eq!(flat.p1, a);
}

#[test]
fn triangle_new() {
    let t = Triangle::new(1, 2, 3);
    assert_eq!((t.x, t.y, t.z), (1, 2, 3));
}

#[test]
fn operators_on_points_and_vectors() {
    assert_eq!(Point::new(1, 0) + Vector::new(1, 1), Point::new(2, 1));
    assert_eq!(Point::new(1, 1) + Vector::new(-1, -1), Point::new(0, 0));
    assert_eq!(Point::new(3, 4) - Point::new(1, 6), Vector::new(2, -2));
    assert_eq!(Vector::new(1, 2) + Vector::new(10, 20), Vector::new(11, 22));
    assert_eq!(Vector::new(1, 2) - Vector::new(10, 20), Vector::new(-9, -18));
    assert_eq!(-Vector::new(1, -2), Vector::new(-1, 2));
    assert_eq!(Vector::new(3, -2) * 5, Vector::new(15, -10));
    assert_eq!(Vector::new(7, -7) / 2, Vector::new(3, -4));
    assert_eq!(Vector::new(7, -7) / -2, Vector::new(-4, 3));
}

#[test]
fn vector_length_is_rounded_down() {
    assert_eq!(vector_length(Point::new(3, 0), Point::new(0, 4)), 5);
    assert_eq!(vector_length(Point::new(0, 0), Point::new(0, 0)), 0);
    assert_eq!(vector_length(Point::new(0, 0), Point::new(1, 1)), 1);
    assert_eq!(vector_length(Point::new(0, 0), Point::new(2, 2)), 2);
    assert_eq!(vector_length(Point::new(-1, -1), Point::new(2, 3)), 5);
    assert_eq!(
        vector_length(Point::new(i32::MIN, i32::MIN), Point::new(i32::MAX, i32::MAX)),
        6074000998
    );
}

#[test]
fn segments_are_ordered_by_lower_then_upper_end() {
    let a = Segment::new_i((0, 0), (5, 5));
    let b = Segment::new_i((0, 0), (1, 6));
    let c = Segment::new_i((1, 0), (0, 1));
    assert!(a < b);
    assert!(b < c);
    assert!(!(a < a));
    assert!(c > a);
}

#[test]
fn projection_factor_is_a_quotient() {
    let s = Segment::new_i((0, 0), (4, 0));
    // the top is (4, 0): its own factor is 0, that of the lower end is 1
    assert_eq!(s.point_projection_factor(Point::new(4, 0)), (0, 16));
    assert_eq!(s.point_projection_factor(Point::new(0, 0)), (16, 16));
    assert_eq!(s.point_projection_factor(Point::new(3, 7)), (4, 16));
    assert_eq!(s.point_projection_factor(Point::new(6, -2)), (-8, 16));
}
