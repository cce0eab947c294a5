//! Lattice points.

use vstd::prelude::*;
use crate::draw::Draw;
use crate::pixel_color::PixelColor;
use crate::raw_canvas::RawCanvas;

verus! {

/// A point of the integer lattice.
#[derive(Clone, Copy, Debug, PartialEq, Eq, Structural)]
pub struct Point2d {
    pub x: i32,
    pub y: i32,
}

impl Point2d {
    pub fn new(x: i32, y: i32) -> (point: Point2d)
        ensures
            point == (Point2d { x, y }),
    {
        Point2d { x, y }
    }

    /// The origin.
    pub fn zero() -> (point: Point2d)
        ensures
            point == (Point2d { x: 0, y: 0 }),
    {
        Point2d::new(0, 0)
    }

    /// The point as a pair of mathematical integers.
    pub open spec fn position(self) -> (int, int) {
        (self.x as int, self.y as int)
    }
}

impl Draw for Point2d {
    open spec fn pixels(&self) -> Set<(int, int)> {
        set![self.position()]
    }

    open spec fn color(&self) -> PixelColor {
        PixelColor { red: 255, green: 0, blue: 0, alpha: 0 }
    }

    /// Marks the point in red.
    fn draw(&self, canvas: &mut RawCanvas) {
        let color = PixelColor::red();
        canvas.put_lattice_pixel(self.x as i64, self.y as i64, &color);
        proof {
            old(canvas).lemma_view();
            old(canvas)@.lemma_painted_insert(Set::empty(), self.position(), old(canvas)@.color_value(color));
            old(canvas)@.lemma_painted_nothing(old(canvas)@.color_value(color));
            assert(Set::<(int, int)>::empty().insert(self.position()) =~= self.pixels());
        }
    }
}

} // verus!
