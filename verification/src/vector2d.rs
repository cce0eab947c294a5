//! Directed segments and their algebra.

use vstd::prelude::*;
use vstd::std_specs::ops::{AddSpecImpl, MulSpecImpl};
use crate::arith::lemma_product_bound;
use crate::point2d::Point2d;

verus! {

/// A directed segment between two lattice points.
#[derive(Clone, Copy, Debug, PartialEq, Eq, Structural)]
pub struct Vector2d {
    x0: i32,
    y0: i32,
    x1: i32,
    y1: i32,
}

/// The dot product of the displacements `(ux, uy)` and `(vx, vy)`.
pub open spec fn dot_product(ux: int, uy: int, vx: int, vy: int) -> int {
    ux * vx + uy * vy
}

/// The dot product of `(vx, vy)` with `(ux, uy)` turned a quarter turn
/// counter-clockwise, which is `(-uy, ux)`.
pub open spec fn cross_product(ux: int, uy: int, vx: int, vy: int) -> int {
    ux * vy - uy * vx
}

impl Vector2d {
    /// The point that the vector starts from.
    pub closed spec fn start(self) -> Point2d {
        Point2d { x: self.x0, y: self.y0 }
    }

    /// The point that the vector leads to.
    pub closed spec fn end(self) -> Point2d {
        Point2d { x: self.x1, y: self.y1 }
    }

    /// A vector is given by its two points.
    pub proof fn lemma_same_points(self, other: Vector2d)
        requires
            self.start() == other.start(),
            self.end() == other.end(),
        ensures
            self == other,
    {
    }

    /// Displacement along x.
    pub open spec fn dx(self) -> int {
        self.end().x - self.start().x
    }

    /// Displacement along y.
    pub open spec fn dy(self) -> int {
        self.end().y - self.start().y
    }

    pub fn new(x0: i32, y0: i32, x1: i32, y1: i32) -> (v: Vector2d)
        ensures
            v.start() == (Point2d { x: x0, y: y0 }),
            v.end() == (Point2d { x: x1, y: y1 }),
    {
        Vector2d { x0, y0, x1, y1 }
    }

    pub fn from_2d_points(from: &Point2d, to: &Point2d) -> (v: Vector2d)
        ensures
            v.start() == *from,
            v.end() == *to,
    {
        Vector2d::new(from.x, from.y, to.x, to.y)
    }

    pub fn get_from(&self) -> (p: Point2d)
        ensures
            p == self.start(),
    {
        Point2d::new(self.x0, self.y0)
    }

    pub fn get_to(&self) -> (p: Point2d)
        ensures
            p == self.end(),
    {
        Point2d::new(self.x1, self.y1)
    }

    /// The dot product of the two displacements.
    pub fn dot(&self, other: &Vector2d) -> (r: i128)
        ensures
            r == dot_product(self.dx(), self.dy(), other.dx(), other.dy()),
            -0x1_ffff_fffc_0000_0002 <= r <= 0x1_ffff_fffc_0000_0002,
    {
        let ux: i128 = self.x1 as i128 - self.x0 as i128;
        let uy: i128 = self.y1 as i128 - self.y0 as i128;
        let vx: i128 = other.x1 as i128 - other.x0 as i128;
        let vy: i128 = other.y1 as i128 - other.y0 as i128;
        proof {
            lemma_product_bound(ux as int, 0xffff_ffff, vx as int, 0xffff_ffff);
            lemma_product_bound(uy as int, 0xffff_ffff, vy as int, 0xffff_ffff);
        }
        ux * vx + uy * vy
    }

    /// The dot product of `other` with the left normal of `self`: positive
    /// when `other` turns counter-clockwise from `self`, negative when it
    /// turns clockwise, zero when the two are parallel.
    pub fn cross(&self, other: &Vector2d) -> (r: i128)
        ensures
            r == cross_product(self.dx(), self.dy(), other.dx(), other.dy()),
            -0x1_ffff_fffc_0000_0002 <= r <= 0x1_ffff_fffc_0000_0002,
    {
        let ux: i128 = self.x1 as i128 - self.x0 as i128;
        let uy: i128 = self.y1 as i128 - self.y0 as i128;
        let vx: i128 = other.x1 as i128 - other.x0 as i128;
        let vy: i128 = other.y1 as i128 - other.y0 as i128;
        proof {
            lemma_product_bound(ux as int, 0xffff_ffff, vy as int, 0xffff_ffff);
            lemma_product_bound(uy as int, 0xffff_ffff, vx as int, 0xffff_ffff);
        }
        ux * vy - uy * vx
    }
}

impl Vector2d {
    /// Whether all four coordinates lie in the range of the lattice.
    pub open spec fn fits(x0: int, y0: int, x1: int, y1: int) -> bool {
        &&& i32::MIN <= x0 <= i32::MAX
        &&& i32::MIN <= y0 <= i32::MAX
        &&& i32::MIN <= x1 <= i32::MAX
        &&& i32::MIN <= y1 <= i32::MAX
    }

    /// The squared length of the displacement.
    pub open spec fn length_squared(self) -> int {
        self.dx() * self.dx() + self.dy() * self.dy()
    }

    /// The length of the displacement, rounded down to an integer.
    pub fn length(&self) -> (r: u64)
        ensures
            r * r <= self.length_squared() < (r + 1) * (r + 1),
    {
        let dx: i128 = self.x1 as i128 - self.x0 as i128;
        let dy: i128 = self.y1 as i128 - self.y0 as i128;
        proof {
            lemma_product_bound(dx as int, 0xffff_ffff, dx as int, 0xffff_ffff);
            lemma_product_bound(dy as int, 0xffff_ffff, dy as int, 0xffff_ffff);
            assert(dx * dx >= 0 && dy * dy >= 0) by (nonlinear_arith);
        }
        let square: u128 = (dx * dx + dy * dy) as u128;
        let mut low: u128 = 0;
        let mut high: u128 = 0x2_0000_0000;
        assert(0x2_0000_0000 * 0x2_0000_0000 == 0x4_0000_0000_0000_0000) by (nonlinear_arith);
        while high - low > 1
            invariant
                low < high <= 0x2_0000_0000,
                square < 0x4_0000_0000_0000_0000,
                low * low <= square < high * high,
            decreases high - low,
        {
            let middle: u128 = low + (high - low) / 2;
            proof {
                lemma_product_bound(middle as int, 0x2_0000_0000, middle as int, 0x2_0000_0000);
            }
            if middle * middle <= square {
                low = middle;
            } else {
                high = middle;
            }
        }
        low as u64
    }

    /// The displacement turned a quarter turn counter-clockwise, as a vector
    /// from the origin.  It is as long as the displacement itself: on the
    /// lattice a normal is not scaled to unit length.
    pub fn normal_left(&self) -> (n: Vector2d)
        requires
            Vector2d::fits(0, 0, -self.dy(), self.dx()),
        ensures
            n.start() == (Point2d { x: 0, y: 0 }),
            n.dx() == -self.dy(),
            n.dy() == self.dx(),
    {
        let dx: i64 = self.x1 as i64 - self.x0 as i64;
        let dy: i64 = self.y1 as i64 - self.y0 as i64;
        Vector2d::new(0, 0, (-dy) as i32, dx as i32)
    }

    /// The displacement turned a quarter turn clockwise, as a vector from
    /// the origin.  It is as long as the displacement itself.
    pub fn normal_right(&self) -> (n: Vector2d)
        requires
            Vector2d::fits(0, 0, self.dy(), -self.dx()),
        ensures
            n.start() == (Point2d { x: 0, y: 0 }),
            n.dx() == self.dy(),
            n.dy() == -self.dx(),
    {
        let dx: i64 = self.x1 as i64 - self.x0 as i64;
        let dy: i64 = self.y1 as i64 - self.y0 as i64;
        Vector2d::new(0, 0, dy as i32, (-dx) as i32)
    }
}

impl Vector2d {
    /// Whether the sum of the two vectors lies in the range of the lattice.
    pub open spec fn can_add(self, rhs: Vector2d) -> bool {
        Vector2d::fits(
            self.start().x + rhs.start().x,
            self.start().y + rhs.start().y,
            self.end().x + rhs.end().x,
            self.end().y + rhs.end().y,
        )
    }

    /// The vector from the sum of the two start points to the sum of the two
    /// end points.
    pub closed spec fn sum(self, rhs: Vector2d) -> Vector2d {
        Vector2d {
            x0: (self.x0 + rhs.x0) as i32,
            y0: (self.y0 + rhs.y0) as i32,
            x1: (self.x1 + rhs.x1) as i32,
            y1: (self.y1 + rhs.y1) as i32,
        }
    }

    /// Whether the vector scaled by `factor` lies in the range of the
    /// lattice.
    pub open spec fn can_scale(self, factor: i32) -> bool {
        Vector2d::fits(
            self.start().x * factor,
            self.start().y * factor,
            self.end().x * factor,
            self.end().y * factor,
        )
    }

    /// The vector with every coordinate of its start and end point
    /// multiplied by `factor`.
    pub closed spec fn scaled(self, factor: i32) -> Vector2d {
        Vector2d {
            x0: (self.x0 * factor) as i32,
            y0: (self.y0 * factor) as i32,
            x1: (self.x1 * factor) as i32,
            y1: (self.y1 * factor) as i32,
        }
    }

    /// The sum of two vectors has the sums of their start and end points.
    pub proof fn lemma_sum(self, rhs: Vector2d)
        requires
            self.can_add(rhs),
        ensures
            self.sum(rhs).start().x == self.start().x + rhs.start().x,
            self.sum(rhs).start().y == self.start().y + rhs.start().y,
            self.sum(rhs).end().x == self.end().x + rhs.end().x,
            self.sum(rhs).end().y == self.end().y + rhs.end().y,
    {
    }

    /// A scaled vector has its start and end points scaled, each coordinate
    /// by the same factor.
    pub proof fn lemma_scaled(self, factor: i32)
        requires
            self.can_scale(factor),
        ensures
            self.scaled(factor).start().x == self.start().x * factor,
            self.scaled(factor).start().y == self.start().y * factor,
            self.scaled(factor).end().x == self.end().x * factor,
            self.scaled(factor).end().y == self.end().y * factor,
    {
    }
}

impl core::ops::Add<Vector2d> for Vector2d {
    type Output = Vector2d;

    /// Adds the two start points and the two end points.
    fn add(self, rhs: Vector2d) -> (sum: Vector2d) {
        Vector2d::new(self.x0 + rhs.x0, self.y0 + rhs.y0, self.x1 + rhs.x1, self.y1 + rhs.y1)
    }
}

impl AddSpecImpl<Vector2d> for Vector2d {
    open spec fn obeys_add_spec() -> bool {
        true
    }

    open spec fn add_req(self, rhs: Vector2d) -> bool {
        self.can_add(rhs)
    }

    open spec fn add_spec(self, rhs: Vector2d) -> Vector2d {
        self.sum(rhs)
    }
}

impl core::ops::Mul<i32> for Vector2d {
    type Output = Vector2d;

    /// Scales the start point and the end point by `rhs`.
    fn mul(self, rhs: i32) -> (product: Vector2d) {
        Vector2d::new(self.x0 * rhs, self.y0 * rhs, self.x1 * rhs, self.y1 * rhs)
    }
}

impl MulSpecImpl<i32> for Vector2d {
    open spec fn obeys_mul_spec() -> bool {
        true
    }

    open spec fn mul_req(self, rhs: i32) -> bool {
        self.can_scale(rhs)
    }

    open spec fn mul_spec(self, rhs: i32) -> Vector2d {
        self.scaled(rhs)
    }
}

} // verus!
