use triangulation::point::Triangle;
use triangulation::stroke::{path_corners, shift_triangles, strip_triangles, Corner, JoinKind};

#[test]
fn two_ends_make_one_rectangle() {
    assert_eq!(
        strip_triangles(&[JoinKind::Miter, JoinKind::Miter]),
        vec![Triangle::new(0, 1, 2), Triangle::new(1, 2, 3)]
    );
}

#[test]
fn right_angle_with_miter_join_is_a_strip_of_two_segments() {
    let triangles = strip_triangles(&[JoinKind::Miter, JoinKind::Miter, JoinKind::Miter]);
    assert_eq!(
        triangles,
        vec![
            Triangle::new(0, 1, 2),
            Triangle::new(1, 2, 3),
            Triangle::new(2, 3, 4),
            Triangle::new(3, 4, 5),
        ]
    );
}

#[test]
fn bevel_join_has_three_vertices_and_a_corner_triangle() {
    let joins = [JoinKind::Miter, JoinKind::Bevel, JoinKind::Miter];
    assert_eq!(JoinKind::Bevel.vertices(), 3);
    assert_eq!(JoinKind::Miter.vertices(), 2);
    let triangles = strip_triangles(&joins);
    assert_eq!(
        triangles,
        vec![
            Triangle::new(2, 3, 4),
            Triangle::new(0, 1, 2),
            Triangle::new(1, 2, 3),
            Triangle::new(3, 4, 5),
            Triangle::new(4, 5, 6),
        ]
    );
    // seven vertices, five triangles
    assert_eq!(triangles.len() + 2, 7);
}

#[test]
fn fewer_than_two_joins_have_no_strip() {
    assert!(strip_triangles(&[]).is_empty());
    assert!(strip_triangles(&[JoinKind::Miter]).is_empty());
    assert_eq!(strip_triangles(&[JoinKind::Bevel]), vec![Triangle::new(0, 1, 2)]);
}

#[test]
fn strip_has_two_triangles_fewer_than_vertices() {
    let mut joins = Vec::new();
    for i in 0..50 {
        joins.push(if i % 3 == 1 { JoinKind::Bevel } else { JoinKind::Miter });
        let vertices: usize = joins.iter().map(|j| j.vertices()).sum();
        let triangles = strip_triangles(&joins);
        assert_eq!(triangles.len() + 2, vertices);
        for t in triangles {
            assert!(t.x < vertices && t.y < vertices && t.z < vertices);
        }
    }
}

#[test]
fn open_path_has_caps_at_its_ends_and_joins_between() {
    assert_eq!(
        path_corners(2, false),
        vec![Corner::Cap { point: 0, edge: 0 }, Corner::Cap { point: 1, edge: 0 }]
    );
    assert_eq!(
        path_corners(4, false),
        vec![
            Corner::Cap { point: 0, edge: 0 },
            Corner::Join { point: 1, before: 0, after: 1 },
            Corner::Join { point: 2, before: 1, after: 2 },
            Corner::Cap { point: 3, edge: 2 },
        ]
    );
}

#[test]
fn closed_path_has_a_join_at_every_point_and_ends_where_it_began() {
    assert_eq!(
        path_corners(3, true),
        vec![
            Corner::Join { point: 0, before: 2, after: 0 },
            Corner::Join { point: 1, before: 0, after: 1 },
            Corner::Join { point: 2, before: 1, after: 2 },
            Corner::Join { point: 0, before: 2, after: 0 },
        ]
    );
    assert_eq!(
        path_corners(2, true),
        vec![
            Corner::Join { point: 0, before: 1, after: 0 },
            Corner::Join { point: 1, before: 0, after: 1 },
            Corner::Join { point: 0, before: 1, after: 0 },
        ]
    );
}

#[test]
fn shifted_triangles_have_every_number_raised() {
    let triangles = vec![Triangle::new(0, 1, 2), Triangle::new(1, 2, 3)];
    assert_eq!(
        shift_triangles(&triangles, 7),
        vec![Triangle::new(7, 8, 9), Triangle::new(8, 9, 10)]
    );
    assert_eq!(shift_triangles(&triangles, 0), triangles);
    assert!(shift_triangles(&[], 5).is_empty());
}
