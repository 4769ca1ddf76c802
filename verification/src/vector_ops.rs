//! The operators on points and vectors: a point and a vector add to a point,
//! two points differ by a vector, and vectors are added, subtracted, negated,
//! multiplied and divided by whole numbers.
use crate::intersection::lemma_floor_div_between;
use crate::point::{floor_div, spec_floor_div, Point, Vector};
use vstd::prelude::*;

verus! {

impl std::ops::Add<Vector> for Point {
    type Output = Point;

    fn add(self, other: Vector) -> (r: Point) {
        self.add_vector(&other)
    }
}

impl vstd::std_specs::ops::AddSpecImpl<Vector> for Point {
    open spec fn obeys_add_spec() -> bool {
        true
    }

    open spec fn add_req(self, other: Vector) -> bool {
        self.can_add_vector(other)
    }

    open spec fn add_spec(self, other: Vector) -> Point {
        Point { x: (self.x + other.x) as i32, y: (self.y + other.y) as i32 }
    }
}

impl std::ops::Sub for Point {
    type Output = Vector;

    fn sub(self, other: Point) -> (r: Vector) {
        Vector { x: self.x as i64 - other.x as i64, y: self.y as i64 - other.y as i64 }
    }
}

impl vstd::std_specs::ops::SubSpecImpl for Point {
    open spec fn obeys_sub_spec() -> bool {
        true
    }

    open spec fn sub_req(self, other: Point) -> bool {
        true
    }

    open spec fn sub_spec(self, other: Point) -> Vector {
        Vector { x: (self.x - other.x) as i64, y: (self.y - other.y) as i64 }
    }
}

/// A number fits a component of a vector.
pub open spec fn fits(n: int) -> bool {
    i64::MIN <= n <= i64::MAX
}

impl std::ops::Add for Vector {
    type Output = Vector;

    fn add(self, other: Vector) -> (r: Vector) {
        Vector { x: self.x + other.x, y: self.y + other.y }
    }
}

impl vstd::std_specs::ops::AddSpecImpl for Vector {
    open spec fn obeys_add_spec() -> bool {
        true
    }

    open spec fn add_req(self, other: Vector) -> bool {
        fits(self.x + other.x) && fits(self.y + other.y)
    }

    open spec fn add_spec(self, other: Vector) -> Vector {
        Vector { x: (self.x + other.x) as i64, y: (self.y + other.y) as i64 }
    }
}

impl std::ops::Sub for Vector {
    type Output = Vector;

    fn sub(self, other: Vector) -> (r: Vector) {
        Vector { x: self.x - other.x, y: self.y - other.y }
    }
}

impl vstd::std_specs::ops::SubSpecImpl for Vector {
    open spec fn obeys_sub_spec() -> bool {
        true
    }

    open spec fn sub_req(self, other: Vector) -> bool {
        fits(self.x - other.x) && fits(self.y - other.y)
    }

    open spec fn sub_spec(self, other: Vector) -> Vector {
        Vector { x: (self.x - other.x) as i64, y: (self.y - other.y) as i64 }
    }
}

impl std::ops::Neg for Vector {
    type Output = Vector;

    fn neg(self) -> (r: Vector) {
        Vector { x: -self.x, y: -self.y }
    }
}

impl vstd::std_specs::ops::NegSpecImpl for Vector {
    open spec fn obeys_neg_spec() -> bool {
        true
    }

    open spec fn neg_req(self) -> bool {
        fits(-self.x) && fits(-self.y)
    }

    open spec fn neg_spec(self) -> Vector {
        Vector { x: (-self.x) as i64, y: (-self.y) as i64 }
    }
}

impl std::ops::Mul<i64> for Vector {
    type Output = Vector;

    fn mul(self, rhs: i64) -> (r: Vector) {
        self.scale(rhs)
    }
}

impl vstd::std_specs::ops::MulSpecImpl<i64> for Vector {
    open spec fn obeys_mul_spec() -> bool {
        true
    }

    open spec fn mul_req(self, rhs: i64) -> bool {
        self.can_scale(rhs)
    }

    open spec fn mul_spec(self, rhs: i64) -> Vector {
        Vector { x: (self.x * rhs) as i64, y: (self.y * rhs) as i64 }
    }
}

/// The quotient of a component by a divisor, rounded down, fits a component.
pub proof fn lemma_quotient_fits(n: i64, d: i64)
    requires
        d != 0,
        !(n == i64::MIN && d == -1),
    ensures
        fits(spec_floor_div(n as int, d as int)),
{
    let (ni, di) = (n as int, d as int);
    let (low, high) = (i64::MIN as int, i64::MAX as int);
    if d > 0 {
        assert(low * di <= ni <= high * di) by (nonlinear_arith)
            requires
                di >= 1,
                low <= ni <= high,
                low < 0 < high,
        ;
    } else {
        assert(low * di >= ni >= high * di) by (nonlinear_arith)
            requires
                di <= -1,
                low <= ni <= high,
                low == -high - 1,
                high > 0,
                !(ni == low && di == -1),
        ;
    }
    lemma_floor_div_between(ni, di, low, high);
}

impl std::ops::Div<i64> for Vector {
    type Output = Vector;

    /// Each component divided by `rhs` and rounded down.
    fn div(self, rhs: i64) -> (r: Vector) {
        proof {
            lemma_quotient_fits(self.x, rhs);
            lemma_quotient_fits(self.y, rhs);
        }
        Vector {
            x: floor_div(self.x as i128, rhs as i128) as i64,
            y: floor_div(self.y as i128, rhs as i128) as i64,
        }
    }
}

impl vstd::std_specs::ops::DivSpecImpl<i64> for Vector {
    open spec fn obeys_div_spec() -> bool {
        true
    }

    open spec fn div_req(self, rhs: i64) -> bool {
        rhs != 0 && !(rhs == -1 && (self.x == i64::MIN || self.y == i64::MIN))
    }

    open spec fn div_spec(self, rhs: i64) -> Vector {
        Vector {
            x: spec_floor_div(self.x as int, rhs as int) as i64,
            y: spec_floor_div(self.y as int, rhs as int) as i64,
        }
    }
}

} // verus!
