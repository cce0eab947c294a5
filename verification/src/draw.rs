//! What it means to render a shape.

use vstd::prelude::*;
use crate::pixel_color::PixelColor;
use crate::raw_canvas::RawCanvas;

verus! {

/// A shape that can be rendered onto a canvas.
pub trait Draw {
    /// The lattice positions that the shape covers.
    spec fn pixels(&self) -> Set<(int, int)>;

    /// The colour that the shape is rendered in.
    spec fn color(&self) -> PixelColor;

    /// Renders the shape: every covered position that lies on the canvas
    /// receives the shape's colour, and nothing else changes.
    fn draw(&self, canvas: &mut RawCanvas)
        requires
            old(canvas).wf(),
        ensures
            final(canvas).wf(),
            final(canvas)@ == old(canvas)@.painted(self.pixels(), old(canvas)@.color_value(self.color())),
    ;
}

} // verus!
