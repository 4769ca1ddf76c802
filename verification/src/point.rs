//! Points, vectors and segments on the integer grid, the orientation
//! predicate, and the integer keys under which points and segments are stored
//! in hash tables.
pub use crate::edges::calc_dedup_edges;
pub use crate::split::split_polygon_on_repeated_edges;
use std::cmp::Ordering;
use vstd::prelude::*;

verus! {

/// A grid point. Points are ordered by `y` first and by `x` second.
#[derive(Debug, Clone, Copy, PartialEq, Eq, Structural, Hash)]
pub struct Point {
    pub x: i32,
    pub y: i32,
}

/// A displacement between grid points. Its components are wide enough to hold
/// the sum or the difference of any two points.
#[derive(Debug, Clone, Copy, PartialEq, Eq, Structural, Hash)]
pub struct Vector {
    pub x: i64,
    pub y: i64,
}

/// A segment with two distinct endpoints, held so that `bottom` comes before
/// `top` in the order of points.
#[derive(Debug, Clone, Copy, PartialEq, Eq, Structural, Hash)]
pub struct Segment {
    pub top: Point,
    pub bottom: Point,
}

/// Three indices into a vertex array.
#[derive(Debug, Clone, Copy, PartialEq, Eq, Structural, Hash)]
pub struct Triangle {
    pub x: usize,
    pub y: usize,
    pub z: usize,
}

/// A triangle given by its three corners.
#[derive(Debug, Clone, Copy, PartialEq, Eq, Structural, Hash)]
pub struct PointTriangle {
    pub p1: Point,
    pub p2: Point,
    pub p3: Point,
}

/// The turn that three points make.
#[derive(Debug, Clone, Copy, PartialEq, Eq, Structural, Hash)]
pub enum Orientation {
    Collinear,
    Clockwise,
    CounterClockwise,
}

impl Point {
    /// `self` comes strictly before `other`: lower `y`, or equal `y` and lower `x`.
    pub open spec fn spec_lt(self, other: Point) -> bool {
        self.y < other.y || (self.y == other.y && self.x < other.x)
    }

    /// The key of a point: an integer that grows with the point's place in the
    /// order of points.
    pub open spec fn spec_key(self) -> u64 {
        ((self.y + 0x8000_0000) * 0x1_0000_0000 + (self.x + 0x8000_0000)) as u64
    }

    /// The point with the coordinates `x` and `y`.
    pub fn new(x: i32, y: i32) -> (p: Self)
        ensures
            p == (Point { x, y }),
    {
        Point { x, y }
    }

    /// The point with the coordinates `x` and `y`.
    pub fn new_i(x: i32, y: i32) -> (p: Self)
        ensures
            p == (Point { x, y }),
    {
        Point { x, y }
    }

    /// The component-wise sum of two points.
    pub fn add(&self, other: &Point) -> (v: Vector)
        ensures
            v.x == self.x + other.x,
            v.y == self.y + other.y,
    {
        Vector { x: self.x as i64 + other.x as i64, y: self.y as i64 + other.y as i64 }
    }

    /// The displacement that leads from `other` to `self`.
    pub fn sub(&self, other: &Point) -> (v: Vector)
        ensures
            v.x == self.x - other.x,
            v.y == self.y - other.y,
    {
        Vector { x: self.x as i64 - other.x as i64, y: self.y as i64 - other.y as i64 }
    }

    /// The displaced point lies on the grid.
    pub open spec fn can_add_vector(self, vector: Vector) -> bool {
        &&& i32::MIN <= self.x + vector.x <= i32::MAX
        &&& i32::MIN <= self.y + vector.y <= i32::MAX
    }

    /// The point displaced by `vector`.
    pub fn add_vector(&self, vector: &Vector) -> (p: Point)
        requires
            self.can_add_vector(*vector),
        ensures
            p.x == self.x + vector.x,
            p.y == self.y + vector.y,
    {
        Point { x: (self.x as i64 + vector.x) as i32, y: (self.y as i64 + vector.y) as i32 }
    }

    /// The point displaced by `vector`, or `None` where that leaves the grid.
    pub fn checked_add_vector(&self, vector: &Vector) -> (r: Option<Point>)
        ensures
            r.is_some() <==> self.can_add_vector(*vector),
            r matches Some(p) ==> p.x == self.x + vector.x && p.y == self.y + vector.y,
    {
        let x: i128 = self.x as i128 + vector.x as i128;
        let y: i128 = self.y as i128 + vector.y as i128;
        if x < -2147483648 || x > 2147483647 || y < -2147483648 || y > 2147483647 {
            None
        } else {
            Some(Point { x: x as i32, y: y as i32 })
        }
    }

    /// The key of the point.
    pub fn key(&self) -> (k: u64)
        ensures
            k == self.spec_key(),
    {
        let yy: u64 = (self.y as i64 + 0x8000_0000i64) as u64;
        let xx: u64 = (self.x as i64 + 0x8000_0000i64) as u64;
        yy * 0x1_0000_0000u64 + xx
    }

    /// Two points with one key are one point, and the keys are ordered as the
    /// points are.
    pub proof fn lemma_key_order(self, other: Point)
        ensures
            self.spec_key() == other.spec_key() <==> self == other,
            self.spec_key() < other.spec_key() <==> self.spec_lt(other),
            self.spec_key() == (self.y + 0x8000_0000) * 0x1_0000_0000 + (self.x + 0x8000_0000),
    {
    }
}

impl PartialOrd for Point {
    fn partial_cmp(&self, other: &Self) -> (r: Option<Ordering>) {
        if self.y < other.y {
            Some(Ordering::Less)
        } else if self.y > other.y {
            Some(Ordering::Greater)
        } else if self.x < other.x {
            Some(Ordering::Less)
        } else if self.x > other.x {
            Some(Ordering::Greater)
        } else {
            Some(Ordering::Equal)
        }
    }
}

impl vstd::std_specs::cmp::PartialOrdSpecImpl for Point {
    open spec fn obeys_partial_cmp_spec() -> bool {
        true
    }

    open spec fn partial_cmp_spec(&self, other: &Self) -> Option<Ordering> {
        if self.spec_lt(*other) {
            Some(Ordering::Less)
        } else if other.spec_lt(*self) {
            Some(Ordering::Greater)
        } else {
            Some(Ordering::Equal)
        }
    }
}

impl PartialOrd for Segment {
    /// Segments are ordered by their lower ends, and by their upper ends
    /// where the lower ends are the same.
    fn partial_cmp(&self, other: &Self) -> (r: Option<Ordering>) {
        let (mine, theirs) = if self.bottom == other.bottom {
            (self.top, other.top)
        } else {
            (self.bottom, other.bottom)
        };
        if mine < theirs {
            Some(Ordering::Less)
        } else if theirs < mine {
            Some(Ordering::Greater)
        } else {
            Some(Ordering::Equal)
        }
    }
}

impl vstd::std_specs::cmp::PartialOrdSpecImpl for Segment {
    open spec fn obeys_partial_cmp_spec() -> bool {
        true
    }

    open spec fn partial_cmp_spec(&self, other: &Self) -> Option<Ordering> {
        if self.spec_lt(*other) {
            Some(Ordering::Less)
        } else if other.spec_lt(*self) {
            Some(Ordering::Greater)
        } else {
            Some(Ordering::Equal)
        }
    }
}

impl Vector {
    /// The vector with the components `x` and `y`.
    pub fn new(x: i64, y: i64) -> (v: Self)
        ensures
            v == (Vector { x, y }),
    {
        Vector { x, y }
    }

    /// Both components of the scaled vector fit the component type.
    pub open spec fn can_scale(self, factor: i64) -> bool {
        &&& i64::MIN <= self.x * factor <= i64::MAX
        &&& i64::MIN <= self.y * factor <= i64::MAX
    }

    /// The vector with both components multiplied by `factor`.
    pub fn scale(&self, factor: i64) -> (v: Vector)
        requires
            self.can_scale(factor),
        ensures
            v.x == self.x * factor,
            v.y == self.y * factor,
    {
        Vector { x: self.x * factor, y: self.y * factor }
    }

    /// The scaled vector, or `None` where a component does not fit.
    pub fn checked_scale(&self, factor: i64) -> (r: Option<Vector>)
        ensures
            r.is_some() <==> self.can_scale(factor),
            r matches Some(v) ==> v.x == self.x * factor && v.y == self.y * factor,
    {
        match (self.x.checked_mul(factor), self.y.checked_mul(factor)) {
            (Some(x), Some(y)) => Some(Vector { x, y }),
            _ => None,
        }
    }
}

impl Segment {
    /// `self` comes strictly before `other`: its lower end does, or the lower
    /// ends are the same and its upper end does.
    pub open spec fn spec_lt(self, other: Segment) -> bool {
        if self.bottom == other.bottom {
            self.top.spec_lt(other.top)
        } else {
            self.bottom.spec_lt(other.bottom)
        }
    }

    /// The endpoints are in order, and therefore distinct.
    pub open spec fn wf(self) -> bool {
        self.bottom.spec_lt(self.top)
    }

    /// The segment between two distinct points, whichever is given first.
    pub open spec fn spec_new(p1: Point, p2: Point) -> Segment {
        if p1.spec_lt(p2) {
            Segment { top: p2, bottom: p1 }
        } else {
            Segment { top: p1, bottom: p2 }
        }
    }

    /// The key of a segment: the keys of its endpoints side by side.
    pub open spec fn spec_key(self) -> u128 {
        (self.bottom.spec_key() * 0x1_0000_0000_0000_0000 + self.top.spec_key()) as u128
    }

    /// `p` is one of the two endpoints.
    pub open spec fn has_endpoint(self, p: Point) -> bool {
        self.bottom == p || self.top == p
    }

    /// The segment between two distinct points, whichever is given first.
    pub fn new(p1: Point, p2: Point) -> (s: Self)
        requires
            p1 != p2,
        ensures
            s == Segment::spec_new(p1, p2),
            s.wf(),
    {
        if p1 < p2 {
            Segment { bottom: p1, top: p2 }
        } else {
            Segment { bottom: p2, top: p1 }
        }
    }

    /// The segment between two distinct points given by their coordinates.
    pub fn new_i(p1: (i32, i32), p2: (i32, i32)) -> (s: Self)
        requires
            p1 != p2,
        ensures
            s == Segment::spec_new(Point { x: p1.0, y: p1.1 }, Point { x: p2.0, y: p2.1 }),
            s.wf(),
    {
        Segment::new(Point::new_i(p1.0, p1.1), Point::new_i(p2.0, p2.1))
    }

    /// Whether both ends have one height.
    pub fn is_horizontal(&self) -> (r: bool)
        ensures
            r == (self.bottom.y == self.top.y),
    {
        self.bottom.y == self.top.y
    }

    /// Whether both ends have one `x`.
    pub fn is_vertical(&self) -> (r: bool)
        ensures
            r == (self.bottom.x == self.top.x),
    {
        self.bottom.x == self.top.x
    }

    /// The key of the segment.
    pub fn key(&self) -> (k: u128)
        ensures
            k == self.spec_key(),
    {
        let b: u128 = self.bottom.key() as u128;
        let t: u128 = self.top.key() as u128;
        b * 0x1_0000_0000_0000_0000u128 + t
    }

    /// The numerator of the x-coordinate at which the line through the segment
    /// passes the height `y`, over the denominator `top.y - bottom.y`.
    pub open spec fn line_x_numerator(self, y: int) -> int {
        self.bottom.x * (self.top.y - self.bottom.y) + (y - self.bottom.y) * (self.top.x
            - self.bottom.x)
    }

    /// The x-coordinate at which the line through the segment passes the height
    /// `y`, rounded down to the grid; for a horizontal segment, the x-coordinate
    /// of its lower end.
    pub open spec fn spec_point_on_line_x(self, y: int) -> int {
        if self.bottom.y == self.top.y {
            self.bottom.x as int
        } else {
            spec_floor_div(self.line_x_numerator(y), self.top.y - self.bottom.y)
        }
    }

    /// At the height of `p`, the line through the segment passes strictly to
    /// the left of `p`.
    pub open spec fn spec_passes_left_of(self, p: Point) -> bool {
        if self.bottom.y == self.top.y {
            self.bottom.x < p.x
        } else {
            self.line_x_numerator(p.y as int) < p.x * (self.top.y - self.bottom.y)
        }
    }

    /// At the height of `p`, the line through the segment passes strictly to
    /// the right of `p`.
    pub open spec fn spec_passes_right_of(self, p: Point) -> bool {
        if self.bottom.y == self.top.y {
            self.bottom.x > p.x
        } else {
            self.line_x_numerator(p.y as int) > p.x * (self.top.y - self.bottom.y)
        }
    }

    /// `p` lies on the line through the segment and between its endpoints in
    /// both coordinates.
    pub open spec fn spec_point_on_line(self, p: Point) -> bool {
        &&& turn(self.bottom, self.top, p) == 0
        &&& in_box(self.bottom, p, self.top)
    }

    /// The value of `line_x_numerator`.
    fn line_x_numerator_value(&self, y: i32) -> (n: i128)
        ensures
            n == self.line_x_numerator(y as int),
            -0x1_8000_0000_0000_0000 <= n <= 0x1_8000_0000_0000_0000,
    {
        let dy: i64 = self.top.y as i64 - self.bottom.y as i64;
        let dx: i64 = self.top.x as i64 - self.bottom.x as i64;
        let h: i64 = y as i64 - self.bottom.y as i64;
        let bx: i64 = self.bottom.x as i64;
        assert(-0x1_0000_0000_0000_0000 <= h * dx <= 0x1_0000_0000_0000_0000) by (nonlinear_arith)
            requires
                -0x1_0000_0000 <= h <= 0x1_0000_0000,
                -0x1_0000_0000 <= dx <= 0x1_0000_0000,
        ;
        assert(-0x8000_0000_0000_0000 <= bx * dy <= 0x8000_0000_0000_0000) by (nonlinear_arith)
            requires
                -0x8000_0000 <= bx <= 0x8000_0000,
                -0x1_0000_0000 <= dy <= 0x1_0000_0000,
        ;
        (bx as i128) * (dy as i128) + (h as i128) * (dx as i128)
    }

    /// The x-coordinate at which the line through the segment passes the height
    /// `y`, rounded down; for a horizontal segment, the x-coordinate of its lower
    /// end.
    pub fn point_on_line_x(&self, y: i32) -> (x: i128)
        ensures
            x == self.spec_point_on_line_x(y as int),
    {
        if self.bottom.y == self.top.y {
            self.bottom.x as i128
        } else {
            let n = self.line_x_numerator_value(y);
            let dy: i128 = self.top.y as i128 - self.bottom.y as i128;
            floor_div(n, dy)
        }
    }

    /// Whether the line through the segment passes the height of `p` strictly
    /// left of `p`.
    pub fn passes_left_of(&self, p: Point) -> (r: bool)
        ensures
            r == self.spec_passes_left_of(p),
    {
        if self.bottom.y == self.top.y {
            self.bottom.x < p.x
        } else {
            let n = self.line_x_numerator_value(p.y);
            let dy: i64 = self.top.y as i64 - self.bottom.y as i64;
            let px: i64 = p.x as i64;
            assert(-0x8000_0000_0000_0000 <= px * dy <= 0x8000_0000_0000_0000) by (nonlinear_arith)
                requires
                    -0x8000_0000 <= px <= 0x8000_0000,
                    -0x1_0000_0000 <= dy <= 0x1_0000_0000,
            ;
            n < (px as i128) * (dy as i128)
        }
    }

    /// Whether the line through the segment passes the height of `p` strictly
    /// right of `p`.
    pub fn passes_right_of(&self, p: Point) -> (r: bool)
        ensures
            r == self.spec_passes_right_of(p),
    {
        if self.bottom.y == self.top.y {
            self.bottom.x > p.x
        } else {
            let n = self.line_x_numerator_value(p.y);
            let dy: i64 = self.top.y as i64 - self.bottom.y as i64;
            let px: i64 = p.x as i64;
            assert(-0x8000_0000_0000_0000 <= px * dy <= 0x8000_0000_0000_0000) by (nonlinear_arith)
                requires
                    -0x8000_0000 <= px <= 0x8000_0000,
                    -0x1_0000_0000 <= dy <= 0x1_0000_0000,
            ;
            n > (px as i128) * (dy as i128)
        }
    }

    /// The numerator and the denominator of the place of the foot of `p` on
    /// the line through the segment: the quotient is 0 at the upper end and 1
    /// at the lower end.
    pub open spec fn spec_point_projection_factor(self, p: Point) -> (int, int) {
        (
            (p.x - self.top.x) * (self.bottom.x - self.top.x) + (p.y - self.top.y) * (self.bottom.y
                - self.top.y),
            (self.top.x - self.bottom.x) * (self.top.x - self.bottom.x) + (self.top.y
                - self.bottom.y) * (self.top.y - self.bottom.y),
        )
    }

    /// The place of the foot of `p` on the line through the segment, as a
    /// numerator and a denominator.
    pub fn point_projection_factor(&self, p: Point) -> (r: (i128, i128))
        ensures
            r.0 == self.spec_point_projection_factor(p).0,
            r.1 == self.spec_point_projection_factor(p).1,
    {
        let px: i64 = p.x as i64 - self.top.x as i64;
        let py: i64 = p.y as i64 - self.top.y as i64;
        let dx: i64 = self.bottom.x as i64 - self.top.x as i64;
        let dy: i64 = self.bottom.y as i64 - self.top.y as i64;
        assert(-0x1_0000_0000_0000_0000 <= px * dx <= 0x1_0000_0000_0000_0000) by (nonlinear_arith)
            requires
                -0x1_0000_0000 <= px <= 0x1_0000_0000,
                -0x1_0000_0000 <= dx <= 0x1_0000_0000,
        ;
        assert(-0x1_0000_0000_0000_0000 <= py * dy <= 0x1_0000_0000_0000_0000) by (nonlinear_arith)
            requires
                -0x1_0000_0000 <= py <= 0x1_0000_0000,
                -0x1_0000_0000 <= dy <= 0x1_0000_0000,
        ;
        assert(0 <= dx * dx <= 0x1_0000_0000_0000_0000) by (nonlinear_arith)
            requires
                -0x1_0000_0000 <= dx <= 0x1_0000_0000,
        ;
        assert(0 <= dy * dy <= 0x1_0000_0000_0000_0000) by (nonlinear_arith)
            requires
                -0x1_0000_0000 <= dy <= 0x1_0000_0000,
        ;
        assert((self.top.x - self.bottom.x) * (self.top.x - self.bottom.x) == dx * dx)
            by (nonlinear_arith)
            requires
                dx == self.bottom.x - self.top.x,
        ;
        assert((self.top.y - self.bottom.y) * (self.top.y - self.bottom.y) == dy * dy)
            by (nonlinear_arith)
            requires
                dy == self.bottom.y - self.top.y,
        ;
        (
            (px as i128) * (dx as i128) + (py as i128) * (dy as i128),
            (dx as i128) * (dx as i128) + (dy as i128) * (dy as i128),
        )
    }

    /// Whether `p` lies on the line through the segment and between its
    /// endpoints in both coordinates.
    pub fn point_on_line(&self, p: Point) -> (r: bool)
        ensures
            r == self.spec_point_on_line(p),
    {
        turn_value(self.bottom, self.top, p) == 0 && on_box(self.bottom, p, self.top)
    }

    /// Two segments with one key are one segment.
    pub proof fn lemma_key_injective(self, other: Segment)
        ensures
            self.spec_key() == other.spec_key() <==> self == other,
    {
        self.bottom.lemma_key_order(other.bottom);
        self.top.lemma_key_order(other.top);
    }

    /// The order in which the endpoints are given does not matter.
    pub proof fn lemma_new_symmetric(p1: Point, p2: Point)
        requires
            p1 != p2,
        ensures
            Segment::spec_new(p1, p2) == Segment::spec_new(p2, p1),
            Segment::spec_new(p1, p2).wf(),
            Segment::spec_new(p1, p2).has_endpoint(p1),
            Segment::spec_new(p1, p2).has_endpoint(p2),
    {
    }
}

impl Triangle {
    /// The triangle over the vertices number `x`, `y` and `z`.
    pub fn new(x: usize, y: usize, z: usize) -> (t: Self)
        ensures
            t == (Triangle { x, y, z }),
    {
        Triangle { x, y, z }
    }
}

impl PointTriangle {
    /// The triangle on three corners, never clockwise: corners given clockwise
    /// are taken in reverse.
    pub open spec fn spec_new(p1: Point, p2: Point, p3: Point) -> PointTriangle {
        if turn(p1, p2, p3) > 0 {
            PointTriangle { p1: p3, p2, p3: p1 }
        } else {
            PointTriangle { p1, p2, p3 }
        }
    }

    /// Twice the area that the corners enclose, positive where they run
    /// counter-clockwise.
    pub open spec fn signed_area2(self) -> int {
        -turn(self.p1, self.p2, self.p3)
    }

    /// The triangle on three corners, never clockwise: corners given clockwise
    /// are taken in reverse.
    pub fn new(p1: Point, p2: Point, p3: Point) -> (t: Self)
        ensures
            t == PointTriangle::spec_new(p1, p2, p3),
            t.signed_area2() >= 0,
    {
        proof {
            lemma_turn_reverse(p1, p2, p3);
        }
        match orientation(p1, p2, p3) {
            Orientation::Clockwise => PointTriangle { p1: p3, p2, p3: p1 },
            _ => PointTriangle { p1, p2, p3 },
        }
    }
}

/// The quantity whose sign is the turn of `p`, `q`, `r`: positive for a
/// clockwise turn, negative for a counter-clockwise one, zero on a line.
pub open spec fn turn(p: Point, q: Point, r: Point) -> int {
    (q.y - p.y) * (r.x - q.x) - (r.y - q.y) * (q.x - p.x)
}

/// The turn of `p`, `q`, `r`: collinear where `turn` is zero, clockwise where
/// it is positive, counter-clockwise where it is negative.
pub open spec fn spec_orientation(p: Point, q: Point, r: Point) -> Orientation {
    if turn(p, q, r) == 0 {
        Orientation::Collinear
    } else if turn(p, q, r) > 0 {
        Orientation::Clockwise
    } else {
        Orientation::CounterClockwise
    }
}

/// The value of `turn`, computed exactly.
pub fn turn_value(p: Point, q: Point, r: Point) -> (t: i128)
    ensures
        t == turn(p, q, r),
{
    let a: i64 = q.y as i64 - p.y as i64;
    let b: i64 = r.x as i64 - q.x as i64;
    let c: i64 = r.y as i64 - q.y as i64;
    let d: i64 = q.x as i64 - p.x as i64;
    assert(-0x1_0000_0000_0000_0000 <= a * b <= 0x1_0000_0000_0000_0000) by (nonlinear_arith)
        requires
            -0x1_0000_0000 <= a <= 0x1_0000_0000,
            -0x1_0000_0000 <= b <= 0x1_0000_0000,
    ;
    assert(-0x1_0000_0000_0000_0000 <= c * d <= 0x1_0000_0000_0000_0000) by (nonlinear_arith)
        requires
            -0x1_0000_0000 <= c <= 0x1_0000_0000,
            -0x1_0000_0000 <= d <= 0x1_0000_0000,
    ;
    (a as i128) * (b as i128) - (c as i128) * (d as i128)
}

/// The turn of `p`, `q`, `r`, computed exactly.
pub fn orientation(p: Point, q: Point, r: Point) -> (o: Orientation)
    ensures
        o == spec_orientation(p, q, r),
{
    let t = turn_value(p, q, r);
    if t == 0 {
        Orientation::Collinear
    } else if t > 0 {
        Orientation::Clockwise
    } else {
        Orientation::CounterClockwise
    }
}

/// Exchanging the second and the third point turns a clockwise triple into a
/// counter-clockwise one and back, and leaves a collinear triple collinear.
pub proof fn lemma_orientation_swap(p: Point, q: Point, r: Point)
    ensures
        turn(p, r, q) == -turn(p, q, r),
        spec_orientation(p, q, r) == Orientation::Collinear <==> spec_orientation(p, r, q)
            == Orientation::Collinear,
        spec_orientation(p, q, r) == Orientation::Clockwise <==> spec_orientation(p, r, q)
            == Orientation::CounterClockwise,
        spec_orientation(p, q, r) == Orientation::CounterClockwise <==> spec_orientation(p, r, q)
            == Orientation::Clockwise,
{
    let (px, py, qx, qy, rx, ry) = (
        p.x as int,
        p.y as int,
        q.x as int,
        q.y as int,
        r.x as int,
        r.y as int,
    );
    assert((ry - py) * (qx - rx) - (qy - ry) * (rx - px) == -((qy - py) * (rx - qx) - (ry - qy) * (
    qx - px))) by (nonlinear_arith);
}

/// Taking three points in reverse reverses their turn.
pub proof fn lemma_turn_reverse(p: Point, q: Point, r: Point)
    ensures
        turn(r, q, p) == -turn(p, q, r),
{
    let (px, py, qx, qy, rx, ry) = (
        p.x as int,
        p.y as int,
        q.x as int,
        q.y as int,
        r.x as int,
        r.y as int,
    );
    assert((qy - ry) * (px - qx) - (py - qy) * (qx - rx) == -((qy - py) * (rx - qx) - (ry - qy) * (
    qx - px))) by (nonlinear_arith);
}

/// `q` lies between `p` and `r` in both coordinates.
pub open spec fn in_box(p: Point, q: Point, r: Point) -> bool {
    &&& (p.x <= q.x <= r.x || r.x <= q.x <= p.x)
    &&& (p.y <= q.y <= r.y || r.y <= q.y <= p.y)
}

/// Whether `q` lies between `p` and `r` in both coordinates.
pub fn on_box(p: Point, q: Point, r: Point) -> (b: bool)
    ensures
        b == in_box(p, q, r),
{
    ((p.x <= q.x && q.x <= r.x) || (r.x <= q.x && q.x <= p.x)) && ((p.y <= q.y && q.y <= r.y) || (
    r.y <= q.y && q.y <= p.y))
}

/// The greatest integer that is at most `n / d`.
pub open spec fn spec_floor_div(n: int, d: int) -> int
    recommends
        d != 0,
{
    if d > 0 {
        n / d
    } else {
        (-n) / (-d)
    }
}

/// `n / d` rounded down.
pub fn floor_div(n: i128, d: i128) -> (q: i128)
    requires
        d != 0,
        i128::MIN < n,
        i128::MIN < d,
    ensures
        q == spec_floor_div(n as int, d as int),
{
    let (a, b): (i128, i128) = if d > 0 {
        (n, d)
    } else {
        (-n, -d)
    };
    if a >= 0 {
        a / b
    } else {
        // a < 0: floor(a / b) = -ceil(-a / b)
        let m: i128 = -a;
        let q: i128 = m / b;
        let r: i128 = m % b;
        proof {
            vstd::arithmetic::div_mod::lemma_fundamental_div_mod(m as int, b as int);
            let (ai, bi, qi, ri) = (a as int, b as int, q as int, r as int);
            assert(ai == (-qi) * bi - ri && ai == (-qi - 1) * bi + (bi - ri)) by (nonlinear_arith)
                requires
                    -ai == bi * qi + ri,
            ;
            if r == 0 {
                vstd::arithmetic::div_mod::lemma_fundamental_div_mod_converse(
                    a as int,
                    b as int,
                    -(q as int),
                    0,
                );
            } else {
                vstd::arithmetic::div_mod::lemma_fundamental_div_mod_converse(
                    a as int,
                    b as int,
                    -(q as int) - 1,
                    b - r,
                );
            }
        }
        if r == 0 {
            -q
        } else {
            -q - 1
        }
    }
}

/// The square of the distance between two points.
pub open spec fn distance_squared(p1: Point, p2: Point) -> int {
    (p1.x - p2.x) * (p1.x - p2.x) + (p1.y - p2.y) * (p1.y - p2.y)
}

/// The distance between two points, rounded down to a whole number: the
/// greatest number whose square is at most the square of the distance.
pub fn vector_length(p1: Point, p2: Point) -> (r: u64)
    ensures
        r * r <= distance_squared(p1, p2) < (r + 1) * (r + 1),
{
    let dx: i64 = p1.x as i64 - p2.x as i64;
    let dy: i64 = p1.y as i64 - p2.y as i64;
    assert(0 <= dx * dx <= 0x1_0000_0000_0000_0000) by (nonlinear_arith)
        requires
            -0x1_0000_0000 <= dx <= 0x1_0000_0000,
    ;
    assert(0 <= dy * dy <= 0x1_0000_0000_0000_0000) by (nonlinear_arith)
        requires
            -0x1_0000_0000 <= dy <= 0x1_0000_0000,
    ;
    let d2: u128 = ((dx as i128) * (dx as i128) + (dy as i128) * (dy as i128)) as u128;
    let mut low: u128 = 0;
    let mut high: u128 = 0x2_0000_0000;
    assert(d2 < high * high) by (nonlinear_arith)
        requires
            d2 <= 0x2_0000_0000_0000_0000,
            high == 0x2_0000_0000,
    ;
    while high - low > 1
        invariant
            low < high <= 0x2_0000_0000,
            low * low <= d2 < high * high,
        decreases high - low,
    {
        let mid: u128 = low + (high - low) / 2;
        assert(mid * mid <= 0x4_0000_0000_0000_0000) by (nonlinear_arith)
            requires
                mid <= 0x2_0000_0000,
        ;
        if mid * mid <= d2 {
            low = mid;
        } else {
            high = mid;
        }
    }
    low as u64
}

} // verus!
