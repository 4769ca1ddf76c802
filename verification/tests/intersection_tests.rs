use triangulation::intersection::{
    do_intersect, find_intersection, find_intersections, on_segment_if_collinear, share_endpoint,
    Event, Intersection, OrderedPair,
};
use triangulation::point::{Point, Segment};

fn seg(x1: i32, y1: i32, x2: i32, y2: i32) -> Segment {
    Segment::new(Point::new(x1, y1), Point::new(x2, y2))
}

fn pairs(list: &[(usize, usize)]) -> Vec<OrderedPair> {
    let mut v: Vec<OrderedPair> = list.iter().map(|&(a, b)| OrderedPair::new(a, b)).collect();
    v.sort();
    v
}

fn sorted(mut v: Vec<OrderedPair>) -> Vec<OrderedPair> {
    v.sort();
    v
}

#[test]
fn test_on_segment_if_collinear() {
    let cases = [
        (seg(0, 0, 2, 2), (1, 1), true),
        (seg(0, 0, 0, 2), (0, 1), true),
        (seg(0, 0, 2, 0), (1, 0), true),
        (seg(0, 0, 1, 1), (2, 2), false),
        (seg(0, 0, 0, 1), (0, 2), false),
        (seg(0, 0, 1, 0), (2, 0), false),
        (seg(1000000, 1000000, 3000000, 3000000), (2000000, 2000000), true),
        (seg(0, 0, 10, 10), (5, 5), true),
        (seg(0, 0, -2, -2), (-1, -1), true),
    ];
    for (s, q, expected) in cases {
        let q = Point::new(q.0, q.1);
        assert_eq!(on_segment_if_collinear(s.bottom, q, s.top), expected);
        assert_eq!(on_segment_if_collinear(s.top, q, s.bottom), expected);
    }
}

#[test]
fn on_segment_takes_the_candidate_second() {
    let p = Point::new(0, 0);
    let r = Point::new(4, 4);
    assert!(on_segment_if_collinear(p, Point::new(2, 2), r));
    assert!(!on_segment_if_collinear(p, Point::new(5, 5), r));
    assert!(!on_segment_if_collinear(p, r, Point::new(2, 2)));
}

#[test]
fn test_do_intersect_crossing_segments() {
    assert!(do_intersect(&seg(0, -1, 0, 1), &seg(-1, 0, 1, 0)));
}

#[test]
fn test_do_intersect() {
    let cases = [
        (seg(0, 0, 1, 1), seg(1, 0, 0, 1)),
        (seg(1, 0, 0, 1), seg(0, 0, 1, 1)),
        (seg(0, 0, 0, 1), seg(0, 1, 1, 1)),
        (seg(0, 0, 0, 1), seg(1, 1, 0, 1)),
        (seg(0, 0, 0, 1), seg(0, 0, 1, 1)),
        (seg(0, 0, 0, 1), seg(1, 1, 0, 0)),
        (seg(0, 0, 0, 2), seg(0, 1, 2, 2)),
        (seg(0, 0, 0, 2), seg(2, 2, 0, 1)),
    ];
    for (s1, s2) in cases {
        assert!(do_intersect(&s1, &s2));
        assert!(do_intersect(&s2, &s1));
    }
}

#[test]
fn test_do_intersect_ne() {
    let cases = [
        (seg(0, 0, 0, 1), seg(1, 2, -1, 2)),
        (seg(0, 0, 1, 0), seg(2, 1, 2, -1)),
        (seg(0, 0, 1, 1), seg(1, 2, 0, 1)),
    ];
    for (s1, s2) in cases {
        assert!(!do_intersect(&s1, &s2));
        assert!(!do_intersect(&s2, &s1));
    }
}

#[test]
fn test_do_intersect_parallel_segments() {
    assert!(!do_intersect(&seg(0, -1, 0, 1), &seg(1, -2, 1, 1)));
}

#[test]
fn test_share_endpoint() {
    assert!(share_endpoint(&seg(0, 0, 1, 1), &seg(1, 1, 2, 2)));
    assert!(share_endpoint(&seg(0, 0, 1, 1), &seg(0, 0, 2, -2)));
    assert!(!share_endpoint(&seg(0, 0, 1, 1), &seg(2, 2, 3, 3)));
}

#[test]
fn test_find_intersection_point() {
    let cases = [
        (seg(0, 0, 2, 2), seg(2, 0, 0, 2), (1, 1)),
        (seg(0, 0, 1, 0), seg(0, 1, 0, 0), (0, 0)),
        (seg(0, 0, 2, 0), seg(1, 0, 1, 2), (1, 0)),
        (seg(1000000, 1000000, 2000000, 2000000), seg(2000000, 1000000, 1000000, 2000000), (1500000, 1500000)),
        (seg(0, 0, 200, 200), seg(198, 0, 0, 198), (99, 99)),
    ];
    for (s1, s2, expected) in cases {
        let expected = Point::new(expected.0, expected.1);
        assert_eq!(find_intersection(&s1, &s2), Intersection::PointIntersection(expected));
        assert_eq!(find_intersection(&s2, &s1), Intersection::PointIntersection(expected));
    }
}

#[test]
fn find_intersection_rounds_the_crossing_down() {
    // the lines cross in (1/2, 1/2)
    let s1 = seg(0, 0, 1, 1);
    let s2 = seg(1, 0, 0, 1);
    assert_eq!(find_intersection(&s1, &s2), Intersection::PointIntersection(Point::new(0, 0)));
    assert_eq!(find_intersection(&s2, &s1), Intersection::PointIntersection(Point::new(0, 0)));
    // the lines cross in (-1/2, -1/2)
    let s3 = seg(0, 0, -1, -1);
    let s4 = seg(-1, 0, 0, -1);
    assert_eq!(find_intersection(&s3, &s4), Intersection::PointIntersection(Point::new(-1, -1)));
    assert_eq!(find_intersection(&s4, &s3), Intersection::PointIntersection(Point::new(-1, -1)));
    // the lines cross in (1, 2/3)
    let s5 = seg(0, 0, 3, 2);
    let s6 = seg(1, -5, 1, 5);
    assert_eq!(find_intersection(&s5, &s6), Intersection::PointIntersection(Point::new(1, 0)));
    assert_eq!(find_intersection(&s6, &s5), Intersection::PointIntersection(Point::new(1, 0)));
}

#[test]
fn find_intersection_stops_at_the_ends_of_the_first_segment() {
    // the lines cross in (3, 3), beyond the upper end of the first segment
    let s1 = seg(0, 0, 1, 1);
    let s2 = seg(6, 0, 0, 6);
    assert_eq!(find_intersection(&s1, &s2), Intersection::PointIntersection(Point::new(1, 1)));
    assert_eq!(find_intersection(&s2, &s1), Intersection::PointIntersection(Point::new(3, 3)));
    // and beyond its lower end
    let s3 = seg(4, 4, 5, 5);
    assert_eq!(find_intersection(&s3, &s2), Intersection::PointIntersection(Point::new(4, 4)));
}

#[test]
fn test_find_intersection_collinear_segments() {
    assert_eq!(
        find_intersection(&seg(0, 0, 2, 0), &seg(1, 0, 3, 0)),
        Intersection::CollinearWithOverlap(vec![Point::new(1, 0), Point::new(2, 0)])
    );
    assert_eq!(
        find_intersection(&seg(1, 0, 3, 0), &seg(0, 0, 2, 0)),
        Intersection::CollinearWithOverlap(vec![Point::new(1, 0), Point::new(2, 0)])
    );
    assert_eq!(
        find_intersection(&seg(0, 0, 4, 4), &seg(1, 1, 2, 2)),
        Intersection::CollinearWithOverlap(vec![Point::new(1, 1), Point::new(2, 2)])
    );
}

#[test]
fn collinear_segments_that_touch_share_one_point() {
    assert_eq!(
        find_intersection(&seg(0, 0, 1, 1), &seg(1, 1, 3, 3)),
        Intersection::CollinearWithOverlap(vec![Point::new(1, 1)])
    );
}

#[test]
fn collinear_segments_apart_do_not_overlap() {
    assert_eq!(
        find_intersection(&seg(0, 0, 1, 1), &seg(2, 2, 3, 3)),
        Intersection::CollinearNoOverlap
    );
    assert_eq!(
        find_intersection(&seg(2, 2, 3, 3), &seg(0, 0, 1, 1)),
        Intersection::CollinearNoOverlap
    );
}

#[test]
fn parallel_segments_on_two_lines_do_not_meet() {
    assert_eq!(
        find_intersection(&seg(0, 0, 2, 2), &seg(1, 0, 3, 2)),
        Intersection::NoIntersection
    );
    assert_eq!(
        find_intersection(&seg(0, 0, 0, 5), &seg(1, 0, 1, 5)),
        Intersection::NoIntersection
    );
}

#[test]
fn test_find_intersections_1() {
    let segments = vec![seg(0, 0, 0, 1), seg(0, 1, 1, 1), seg(1, 1, 1, 0), seg(1, 0, 0, 0)];
    assert!(find_intersections(&segments).is_empty());
}

#[test]
fn test_find_intersections_2() {
    let segments = vec![
        seg(0, 0, 0, 1),
        seg(0, 1, 1, 0),
        seg(1, 0, 1, 1),
        seg(1, 1, 0, 0),
        seg(0, 0, 0, 1),
    ];
    assert_eq!(sorted(find_intersections(&segments)), pairs(&[(1, 3)]));
}

#[test]
fn test_find_intersections_param() {
    let cases: Vec<(Vec<Segment>, Vec<(usize, usize)>)> = vec![
        (
            vec![seg(0, 0, 0, 1), seg(0, 1, 1, 1), seg(1, 1, 1, 0), seg(1, 0, 0, 0)],
            vec![],
        ),
        (vec![seg(0, 0, 2, 2), seg(2, 0, 0, 2)], vec![(0, 1)]),
        (
            vec![seg(0, 0, 2, 2), seg(2, 0, 0, 2), seg(1, 0, 1, 2), seg(0, 1, 2, 1)],
            vec![(0, 1), (0, 2), (0, 3), (1, 2), (1, 3), (2, 3)],
        ),
        (vec![seg(0, 0, 1, 1), seg(2, 2, 3, 3)], vec![]),
        (vec![seg(0, 0, 2, 0), seg(1, -1, 1, 1)], vec![(0, 1)]),
        (
            vec![
                seg(0, 0, 2, 0),
                seg(0, 1, 2, 1),
                seg(0, 2, 2, 2),
                seg(0, 0, 0, 2),
                seg(1, 0, 1, 2),
                seg(2, 0, 2, 2),
            ],
            vec![(0, 4), (1, 3), (1, 4), (1, 5), (2, 4)],
        ),
    ];
    for (segments, expected) in cases {
        assert_eq!(sorted(find_intersections(&segments)), pairs(&expected));
    }
}

#[test]
fn find_intersections_agrees_with_all_pairs() {
    let mut segments = Vec::new();
    let mut state: u32 = 12345;
    let mut next = |m: i32| -> i32 {
        state = state.wrapping_mul(1103515245).wrapping_add(12345);
        ((state >> 16) as i32) % m
    };
    while segments.len() < 40 {
        let (a, b) = (Point::new(next(12), next(12)), Point::new(next(12), next(12)));
        if a != b {
            segments.push(Segment::new(a, b));
        }
    }
    let mut expected = Vec::new();
    for i in 0..segments.len() {
        for j in i + 1..segments.len() {
            if do_intersect(&segments[i], &segments[j]) && !share_endpoint(&segments[i], &segments[j]) {
                expected.push((i, j));
            }
        }
    }
    let found = find_intersections(&segments);
    assert_eq!(sorted(found.clone()), pairs(&expected));
    for p in found {
        assert!(p.first() < p.second());
    }
}

#[test]
fn ordered_pair_holds_the_lower_index_first() {
    let p = OrderedPair::new(5, 2);
    assert_eq!((p.first(), p.second()), (2, 5));
    assert_eq!(p, OrderedPair::new(2, 5));
    assert!(OrderedPair::new(1, 9) < OrderedPair::new(2, 3));
    assert!(OrderedPair::new(2, 3) < OrderedPair::new(2, 4));
}

#[test]
fn events_are_ordered_by_point_then_upper_ends_first() {
    let a = Event::new(Point::new(0, 0), 3, false);
    let b = Event::new(Point::new(0, 0), 1, true);
    let c = Event::new(Point::new(0, 0), 2, true);
    let d = Event::new(Point::new(1, 0), 0, false);
    assert!(b < c);
    assert!(c < a);
    assert!(a < d);
    assert!(!(a < a));
    assert_eq!((a.p, a.index, a.is_top), (Point::new(0, 0), 3, false));
}
