//! A closed set of shapes and the rendering of a frame.

use vstd::prelude::*;
use crate::draw::Draw;
use crate::line::Line;
use crate::pixel_color::PixelColor;
use crate::point2d::Point2d;
use crate::polygon::Polygon;
use crate::raw_canvas::{CanvasView, RawCanvas};

verus! {

/// The shapes that can be rendered.
pub enum Shape {
    Point(Point2d),
    Line(Line),
    Polygon(Polygon),
}

impl Draw for Shape {
    open spec fn pixels(&self) -> Set<(int, int)> {
        match *self {
            Shape::Point(point) => point.pixels(),
            Shape::Line(line) => line.pixels(),
            Shape::Polygon(polygon) => polygon.pixels(),
        }
    }

    open spec fn color(&self) -> PixelColor {
        match *self {
            Shape::Point(point) => point.color(),
            Shape::Line(line) => line.color(),
            Shape::Polygon(polygon) => polygon.color(),
        }
    }

    fn draw(&self, canvas: &mut RawCanvas) {
        match self {
            Shape::Point(point) => point.draw(canvas),
            Shape::Line(line) => line.draw(canvas),
            Shape::Polygon(polygon) => polygon.draw(canvas),
        }
    }
}

/// The canvas after the first `count` shapes have been rendered in order;
/// where shapes overlap, the later one shows.
pub open spec fn drawn(canvas: CanvasView, shapes: Seq<Shape>, count: int) -> CanvasView
    decreases count,
{
    if count <= 0 {
        canvas
    } else {
        let before = drawn(canvas, shapes, count - 1);
        before.painted(shapes[count - 1].pixels(), before.color_value(shapes[count - 1].color()))
    }
}

/// Renders the shapes in order.
pub fn draw_all(shapes: &Vec<Shape>, canvas: &mut RawCanvas)
    requires
        old(canvas).wf(),
    ensures
        final(canvas).wf(),
        final(canvas)@ == drawn(old(canvas)@, shapes@, shapes@.len() as int),
{
    let mut i: usize = 0;
    while i < shapes.len()
        invariant
            0 <= i <= shapes.len(),
            canvas.wf(),
            canvas@ == drawn(old(canvas)@, shapes@, i as int),
        decreases shapes.len() - i,
    {
        shapes[i].draw(canvas);
        i = i + 1;
    }
}

/// Renders one frame: the canvas is filled with the background colour and
/// the shapes are rendered on it in order.
pub fn render_frame(shapes: &Vec<Shape>, canvas: &mut RawCanvas, background: &PixelColor)
    requires
        old(canvas).wf(),
    ensures
        final(canvas).wf(),
        final(canvas)@ == drawn(
            old(canvas)@.filled(old(canvas)@.color_value(*background)),
            shapes@,
            shapes@.len() as int,
        ),
{
    canvas.clean_color(background);
    draw_all(shapes, canvas);
}

} // verus!
