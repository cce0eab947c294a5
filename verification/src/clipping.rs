//! The three clippers: a segment against a rectangle by region codes, a
//! segment against a convex polygon by its parameter window, and a polygon
//! against a convex polygon edge by edge.  Every crossing is kept exact,
//! as a fraction, while a clipper decides; only the points that a clipper
//! returns are taken to the nearest lattice point.

use vstd::prelude::*;
use crate::arith::{
    between, div_round, fraction_lt, lemma_product_bound, lemma_round_div_magnitude,
    lemma_round_ratio_between, round_div, round_ratio,
};
use crate::corners::{
    all_well_formed, clip_corners, clipped_by, corners_of, half_plane_corners, lattice_points,
    lattice_points_of, polygon_corners, Corner,
};
use crate::line::Line;
use crate::point2d::Point2d;
use crate::polygon::{view_of, Polygon, PolygonView};
use crate::rectangle_clip_facts::lemma_four_replacements_settle;
use crate::vector2d::{cross_product, Vector2d};

verus! {

/// An axis-aligned rectangle with `x_min <= x_max` and `y_min <= y_max`; its
/// boundary belongs to it.
pub struct ClippingRectangle {
    y_min: i32,
    y_max: i32,
    x_min: i32,
    x_max: i32,
}

impl ClippingRectangle {
    #[verifier::type_invariant]
    spec fn ordered(self) -> bool {
        self.x_min <= self.x_max && self.y_min <= self.y_max
    }

    pub closed spec fn x_min(self) -> i32 {
        self.x_min
    }

    pub closed spec fn y_min(self) -> i32 {
        self.y_min
    }

    pub closed spec fn x_max(self) -> i32 {
        self.x_max
    }

    pub closed spec fn y_max(self) -> i32 {
        self.y_max
    }

    /// The bounds are ordered: the rectangle is not empty.  Every rectangle
    /// that `new` has made is well formed.
    pub open spec fn well_formed(self) -> bool {
        self.x_min() <= self.x_max() && self.y_min() <= self.y_max()
    }

    /// Whether the point lies in the rectangle, boundary included.
    pub open spec fn contains(self, p: Point2d) -> bool {
        self.x_min() <= p.x <= self.x_max() && self.y_min() <= p.y <= self.y_max()
    }

    pub fn new(x_min: i32, y_min: i32, x_max: i32, y_max: i32) -> (rectangle: ClippingRectangle)
        requires
            x_min <= x_max,
            y_min <= y_max,
        ensures
            rectangle.x_min() == x_min,
            rectangle.y_min() == y_min,
            rectangle.x_max() == x_max,
            rectangle.y_max() == y_max,
            rectangle.well_formed(),
    {
        ClippingRectangle { x_min, y_min, x_max, y_max }
    }
}

/// Region code bit: the point is above the top edge.
pub const TOP: u8 = 0x1;

/// Region code bit: the point is below the bottom edge.
pub const BOTTOM: u8 = 0x2;

/// Region code bit: the point is right of the right edge.
pub const RIGHT: u8 = 0x4;

/// Region code bit: the point is left of the left edge.
pub const LEFT: u8 = 0x8;

/// The vertical part of a region code.
pub open spec fn vertical_code(p: Point2d, rectangle: ClippingRectangle) -> u8 {
    if p.y > rectangle.y_max() {
        TOP
    } else if p.y < rectangle.y_min() {
        BOTTOM
    } else {
        0
    }
}

/// The horizontal part of a region code.
pub open spec fn horizontal_code(p: Point2d, rectangle: ClippingRectangle) -> u8 {
    if p.x > rectangle.x_max() {
        RIGHT
    } else if p.x < rectangle.x_min() {
        LEFT
    } else {
        0
    }
}

/// The four-bit region code of a point: one bit for each edge of the
/// rectangle that the point is beyond, zero for a point in the rectangle.
pub open spec fn out_code(p: Point2d, rectangle: ClippingRectangle) -> u8 {
    vertical_code(p, rectangle) | horizontal_code(p, rectangle)
}

proof fn lemma_code_parts(v: u8, h: u8)
    by (bit_vector)
    requires
        v == 0 || v == 1 || v == 2,
        h == 0 || h == 4 || h == 8,
    ensures
        ((v | h) & 1 != 0) == (v == 1),
        ((v | h) & 2 != 0) == (v == 2),
        ((v | h) & 4 != 0) == (h == 4),
        ((v | h) & 8 != 0) == (h == 8),
        ((v | h) == 0) == (v == 0 && h == 0),
        (v | h) < 16,
        0u8 | v == v,
        v | 0u8 == v,
{
}

/// What the bits of a region code say about the point.
pub proof fn lemma_out_code(p: Point2d, rectangle: ClippingRectangle)
    ensures
        (out_code(p, rectangle) & TOP != 0) == (p.y > rectangle.y_max()),
        (out_code(p, rectangle) & BOTTOM != 0) == (p.y <= rectangle.y_max() && p.y < rectangle.y_min()),
        (out_code(p, rectangle) & RIGHT != 0) == (p.x > rectangle.x_max()),
        (out_code(p, rectangle) & LEFT != 0) == (p.x <= rectangle.x_max() && p.x < rectangle.x_min()),
        (out_code(p, rectangle) == 0) == rectangle.contains(p),
        out_code(p, rectangle) < 16,
{
    lemma_code_parts(vertical_code(p, rectangle), horizontal_code(p, rectangle));
}

/// Computes the region code of a point.
pub fn compute_out_code(point: &Point2d, clipping_rectangle: &ClippingRectangle) -> (code: u8)
    ensures
        code == out_code(*point, *clipping_rectangle),
{
    let mut result: u8 = 0;
    if point.y > clipping_rectangle.y_max {
        result |= TOP;
    } else if point.y < clipping_rectangle.y_min {
        result |= BOTTOM;
    }
    proof {
        lemma_code_parts(vertical_code(*point, *clipping_rectangle), horizontal_code(*point, *clipping_rectangle));
        assert(result == vertical_code(*point, *clipping_rectangle));
    }
    if point.x > clipping_rectangle.x_max {
        result |= RIGHT;
    } else if point.x < clipping_rectangle.x_min {
        result |= LEFT;
    }
    result
}

/// The x coordinate at height `y` of the line through the two end points of
/// `line`, rounded to the nearest integer.
pub open spec fn x_at(line: Line, y: int) -> int {
    line.first.x + round_ratio(line.dx() * (y - line.first.y), line.dy())
}

/// The y coordinate at abscissa `x` of the line through the two end points
/// of `line`, rounded to the nearest integer.
pub open spec fn y_at(line: Line, x: int) -> int {
    line.first.y + round_ratio(line.dy() * (x - line.first.x), line.dx())
}

/// Solves the line through `first` and `second` for x at a height between
/// the heights of the two points.
pub fn line_passing_two_points_x(first: &Point2d, second: &Point2d, y: i32) -> (x: i32)
    requires
        first.y != second.y,
        between(first.y as int, y as int, second.y as int),
    ensures
        x == x_at(Line { first: *first, last: *second }, y as int),
        between(first.x as int, x as int, second.x as int),
{
    let dx: i128 = second.x as i128 - first.x as i128;
    let dy: i128 = second.y as i128 - first.y as i128;
    let offset: i128 = y as i128 - first.y as i128;
    proof {
        lemma_product_bound(dx as int, 0xffff_ffff, offset as int, 0xffff_ffff);
        lemma_round_ratio_between(dx as int, offset as int, dy as int);
        assert(-(dx * offset) == dx * (-offset)) by (nonlinear_arith);
    }
    let shift: i128 = if dy > 0 {
        div_round(dx * offset, dy)
    } else {
        div_round(-(dx * offset), -dy)
    };
    (first.x as i128 + shift) as i32
}

/// Solves the line through `first` and `second` for y at an abscissa between
/// the abscissas of the two points.
pub fn line_passing_two_points_y(first: &Point2d, second: &Point2d, x: i32) -> (y: i32)
    requires
        first.x != second.x,
        between(first.x as int, x as int, second.x as int),
    ensures
        y == y_at(Line { first: *first, last: *second }, x as int),
        between(first.y as int, y as int, second.y as int),
{
    let dx: i128 = second.x as i128 - first.x as i128;
    let dy: i128 = second.y as i128 - first.y as i128;
    let offset: i128 = x as i128 - first.x as i128;
    proof {
        lemma_product_bound(dy as int, 0xffff_ffff, offset as int, 0xffff_ffff);
        lemma_round_ratio_between(dy as int, offset as int, dx as int);
        assert(-(dy * offset) == dy * (-offset)) by (nonlinear_arith);
    }
    let shift: i128 = if dx > 0 {
        div_round(dy * offset, dx)
    } else {
        div_round(-(dy * offset), -dx)
    };
    (first.y as i128 + shift) as i32
}

/// The x coordinate of the exact point of the segment at the position `t`,
/// scaled by the denominator of `t`.
pub open spec fn scaled_x(line: Line, t: Parameter) -> int {
    line.first.x * t.den + t.num * line.dx()
}

/// The y coordinate of the exact point of the segment at the position `t`,
/// scaled by the denominator of `t`.
pub open spec fn scaled_y(line: Line, t: Parameter) -> int {
    line.first.y * t.den + t.num * line.dy()
}

/// Whether the exact point at `t` lies above the top edge.
pub open spec fn above_at(line: Line, rectangle: ClippingRectangle, t: Parameter) -> bool {
    scaled_y(line, t) > rectangle.y_max() * t.den
}

/// Whether the exact point at `t` lies below the bottom edge.
pub open spec fn below_at(line: Line, rectangle: ClippingRectangle, t: Parameter) -> bool {
    scaled_y(line, t) < rectangle.y_min() * t.den
}

/// Whether the exact point at `t` lies right of the right edge.
pub open spec fn right_at(line: Line, rectangle: ClippingRectangle, t: Parameter) -> bool {
    scaled_x(line, t) > rectangle.x_max() * t.den
}

/// Whether the exact point at `t` lies left of the left edge.
pub open spec fn left_at(line: Line, rectangle: ClippingRectangle, t: Parameter) -> bool {
    scaled_x(line, t) < rectangle.x_min() * t.den
}

/// Whether the exact point at `t` lies in the rectangle, boundary included.
pub open spec fn inside_at(line: Line, rectangle: ClippingRectangle, t: Parameter) -> bool {
    &&& !above_at(line, rectangle, t)
    &&& !below_at(line, rectangle, t)
    &&& !right_at(line, rectangle, t)
    &&& !left_at(line, rectangle, t)
}

/// The region code of the exact point of the segment at the position `t`.
pub open spec fn code_at(line: Line, rectangle: ClippingRectangle, t: Parameter) -> u8 {
    (if above_at(line, rectangle, t) {
        TOP
    } else if below_at(line, rectangle, t) {
        BOTTOM
    } else {
        0u8
    }) | (if right_at(line, rectangle, t) {
        RIGHT
    } else if left_at(line, rectangle, t) {
        LEFT
    } else {
        0u8
    })
}

/// What the bits of the region code of an exact point say about the point.
pub proof fn lemma_code_at(line: Line, rectangle: ClippingRectangle, t: Parameter)
    ensures
        (code_at(line, rectangle, t) & TOP != 0) == above_at(line, rectangle, t),
        (code_at(line, rectangle, t) & BOTTOM != 0) == (!above_at(line, rectangle, t) && below_at(
            line,
            rectangle,
            t,
        )),
        (code_at(line, rectangle, t) & RIGHT != 0) == right_at(line, rectangle, t),
        (code_at(line, rectangle, t) & LEFT != 0) == (!right_at(line, rectangle, t) && left_at(
            line,
            rectangle,
            t,
        )),
        (code_at(line, rectangle, t) == 0) == (!above_at(line, rectangle, t) && !below_at(line, rectangle, t)
            && !right_at(line, rectangle, t) && !left_at(line, rectangle, t)),
        code_at(line, rectangle, t) < 16,
{
    let v: u8 = if above_at(line, rectangle, t) {
        TOP
    } else if below_at(line, rectangle, t) {
        BOTTOM
    } else {
        0u8
    };
    let h: u8 = if right_at(line, rectangle, t) {
        RIGHT
    } else if left_at(line, rectangle, t) {
        LEFT
    } else {
        0u8
    };
    lemma_code_parts(v, h);
}

/// An exact point is not beyond two opposite edges of the rectangle.
pub proof fn lemma_sides_exclusive(line: Line, rectangle: ClippingRectangle, t: Parameter)
    requires
        rectangle.well_formed(),
        t.den > 0,
    ensures
        !(above_at(line, rectangle, t) && below_at(line, rectangle, t)),
        !(right_at(line, rectangle, t) && left_at(line, rectangle, t)),
{
    assert(rectangle.y_min() * t.den <= rectangle.y_max() * t.den) by (nonlinear_arith)
        requires
            rectangle.y_min() <= rectangle.y_max(),
            t.den > 0,
    ;
    assert(rectangle.x_min() * t.den <= rectangle.x_max() * t.den) by (nonlinear_arith)
        requires
            rectangle.x_min() <= rectangle.x_max(),
            t.den > 0,
    ;
}

/// Two region codes have no bit set exactly when neither has one, and share
/// a bit exactly when one of the four bits is set in both.
pub proof fn lemma_code_pair(a: u8, b: u8)
    requires
        a < 16,
        b < 16,
    ensures
        ((a | b) == 0) == (a == 0 && b == 0),
        ((a & b) != 0) == ((a & TOP != 0 && b & TOP != 0) || (a & BOTTOM != 0 && b & BOTTOM != 0) || (a
            & RIGHT != 0 && b & RIGHT != 0) || (a & LEFT != 0 && b & LEFT != 0)),
{
    assert(((a | b) == 0) == (a == 0 && b == 0)) by (bit_vector);
    assert(((a & b) != 0) == ((a & 1 != 0 && b & 1 != 0) || (a & 2 != 0 && b & 2 != 0) || (a & 4 != 0
        && b & 4 != 0) || (a & 8 != 0 && b & 8 != 0))) by (bit_vector)
        requires
            a < 16,
            b < 16,
    ;
}

/// Computes the region code of the exact point of the segment at the
/// position `num / den`.
pub fn compute_exact_out_code(line: &Line, num: i64, den: i64, rectangle: &ClippingRectangle) -> (code: u8)
    requires
        0 <= num <= den <= 0xffff_ffff,
        den > 0,
    ensures
        code == code_at(*line, *rectangle, Parameter { num: num as int, den: den as int }),
{
    let dx: i128 = line.last.x as i128 - line.first.x as i128;
    let dy: i128 = line.last.y as i128 - line.first.y as i128;
    proof {
        lemma_product_bound(line.first.x as int, 0x8000_0000, den as int, 0xffff_ffff);
        lemma_product_bound(line.first.y as int, 0x8000_0000, den as int, 0xffff_ffff);
        lemma_product_bound(num as int, 0xffff_ffff, dx as int, 0xffff_ffff);
        lemma_product_bound(num as int, 0xffff_ffff, dy as int, 0xffff_ffff);
        lemma_product_bound(rectangle.x_min as int, 0x8000_0000, den as int, 0xffff_ffff);
        lemma_product_bound(rectangle.x_max as int, 0x8000_0000, den as int, 0xffff_ffff);
        lemma_product_bound(rectangle.y_min as int, 0x8000_0000, den as int, 0xffff_ffff);
        lemma_product_bound(rectangle.y_max as int, 0x8000_0000, den as int, 0xffff_ffff);
    }
    let x: i128 = line.first.x as i128 * den as i128 + num as i128 * dx;
    let y: i128 = line.first.y as i128 * den as i128 + num as i128 * dy;
    let vertical: u8 = if y > rectangle.y_max as i128 * den as i128 {
        TOP
    } else if y < rectangle.y_min as i128 * den as i128 {
        BOTTOM
    } else {
        0
    };
    let horizontal: u8 = if x > rectangle.x_max as i128 * den as i128 {
        RIGHT
    } else if x < rectangle.x_min as i128 * den as i128 {
        LEFT
    } else {
        0
    };
    vertical | horizontal
}

/// The position on a segment at which a coordinate that runs from `start`
/// over `extent` reaches `value`, as a fraction with a positive denominator.
/// The extent must not be zero.
pub open spec fn position_of(value: int, start: int, extent: int) -> Parameter {
    if extent > 0 {
        Parameter { num: value - start, den: extent }
    } else {
        Parameter { num: start - value, den: -extent }
    }
}

/// Where the segment's line crosses the top edge of the rectangle.
pub open spec fn top_position(line: Line, rectangle: ClippingRectangle) -> Parameter {
    position_of(rectangle.y_max() as int, line.first.y as int, line.dy())
}

/// Where the segment's line crosses the bottom edge of the rectangle.
pub open spec fn bottom_position(line: Line, rectangle: ClippingRectangle) -> Parameter {
    position_of(rectangle.y_min() as int, line.first.y as int, line.dy())
}

/// Where the segment's line crosses the right edge of the rectangle.
pub open spec fn right_position(line: Line, rectangle: ClippingRectangle) -> Parameter {
    position_of(rectangle.x_max() as int, line.first.x as int, line.dx())
}

/// Where the segment's line crosses the left edge of the rectangle.
pub open spec fn left_position(line: Line, rectangle: ClippingRectangle) -> Parameter {
    position_of(rectangle.x_min() as int, line.first.x as int, line.dx())
}

/// The exact crossing of the segment with the edge of the rectangle that
/// the point at `t` is beyond; of several such edges the first in the order
/// top, bottom, right, left.
pub open spec fn crossing_position(line: Line, rectangle: ClippingRectangle, t: Parameter) -> Parameter {
    if above_at(line, rectangle, t) {
        top_position(line, rectangle)
    } else if below_at(line, rectangle, t) {
        bottom_position(line, rectangle)
    } else if right_at(line, rectangle, t) {
        right_position(line, rectangle)
    } else {
        left_position(line, rectangle)
    }
}

/// Whether both ends of the window lie in the rectangle.
pub open spec fn accepted(line: Line, rectangle: ClippingRectangle, window: (Parameter, Parameter)) -> bool {
    inside_at(line, rectangle, window.0) && inside_at(line, rectangle, window.1)
}

/// Whether both ends of the window lie beyond one common edge of the
/// rectangle.
pub open spec fn beyond_one_edge(
    line: Line,
    rectangle: ClippingRectangle,
    window: (Parameter, Parameter),
) -> bool {
    ||| (above_at(line, rectangle, window.0) && above_at(line, rectangle, window.1))
    ||| (below_at(line, rectangle, window.0) && below_at(line, rectangle, window.1))
    ||| (right_at(line, rectangle, window.0) && right_at(line, rectangle, window.1))
    ||| (left_at(line, rectangle, window.0) && left_at(line, rectangle, window.1))
}

/// The window after one replacement: its first end, if that is outside the
/// rectangle, else its last, moves to the exact crossing of the segment with
/// an edge that the end is beyond.
pub open spec fn replaced(
    line: Line,
    rectangle: ClippingRectangle,
    window: (Parameter, Parameter),
) -> (Parameter, Parameter) {
    if !inside_at(line, rectangle, window.0) {
        (crossing_position(line, rectangle, window.0), window.1)
    } else {
        (window.0, crossing_position(line, rectangle, window.1))
    }
}

/// Whether at most `rounds` replacements lead to a window that is accepted
/// or rejected.
pub open spec fn settles_within(
    line: Line,
    rectangle: ClippingRectangle,
    window: (Parameter, Parameter),
    rounds: nat,
) -> bool
    decreases rounds,
{
    accepted(line, rectangle, window) || beyond_one_edge(line, rectangle, window) || (rounds > 0
        && settles_within(line, rectangle, replaced(line, rectangle, window), (rounds - 1) as nat))
}

/// What the replacements make of a window within `rounds` rounds: the
/// window itself once both ends lie in the rectangle, nothing once both lie
/// beyond one common edge.
pub open spec fn settled(
    line: Line,
    rectangle: ClippingRectangle,
    window: (Parameter, Parameter),
    rounds: nat,
) -> Option<(Parameter, Parameter)>
    decreases rounds,
{
    if accepted(line, rectangle, window) {
        Some(window)
    } else if beyond_one_edge(line, rectangle, window) {
        None
    } else if rounds == 0 {
        None
    } else {
        settled(line, rectangle, replaced(line, rectangle, window), (rounds - 1) as nat)
    }
}

/// The part of the segment that lies in the rectangle, as a window of exact
/// positions, or nothing.
///
/// A window with both ends in the rectangle is the result.  A window whose
/// ends are beyond one common edge leaves nothing.  In any other window an
/// end that is outside, the first before the last, is replaced by the exact
/// crossing of the segment with an edge that the end is beyond, and the
/// test is made again on the exact point.  Four replacements always settle
/// a segment (`lemma_four_replacements_settle`), and what they leave is the
/// whole visible part (`lemma_cohen_sutherland_visible`).
pub open spec fn visible_part(line: Line, rectangle: ClippingRectangle) -> Option<(Parameter, Parameter)> {
    settled(line, rectangle, (Parameter::zero(), Parameter::one()), 4)
}

/// The result of clipping a segment against a rectangle: the lattice points
/// nearest to the two ends of the visible part.
pub open spec fn cohen_sutherland(line: Line, rectangle: ClippingRectangle) -> Option<Line> {
    match visible_part(line, rectangle) {
        Some(window) => Some(Line { first: point_at(line, window.0), last: point_at(line, window.1) }),
        None => None,
    }
}

/// Whether the point lies within the bounding box of the segment.
pub open spec fn in_bounding_box(line: Line, p: Point2d) -> bool {
    between(line.first.x as int, p.x as int, line.last.x as int) && between(
        line.first.y as int,
        p.y as int,
        line.last.y as int,
    )
}

/// A coordinate of an exact point of the segment lies between the same
/// coordinates of the two end points.
pub proof fn lemma_scaled_between(start: int, extent: int, t: Parameter)
    by (nonlinear_arith)
    requires
        t.on_segment(),
    ensures
        extent >= 0 ==> start * t.den <= start * t.den + t.num * extent <= (start + extent) * t.den,
        extent <= 0 ==> (start + extent) * t.den <= start * t.den + t.num * extent <= start * t.den,
{
}

/// Two integers compare as their products with a positive factor.
pub proof fn lemma_scaled_order(a: int, b: int, factor: int)
    by (nonlinear_arith)
    requires
        factor > 0,
    ensures
        a < b <==> a * factor < b * factor,
        a == b <==> a * factor == b * factor,
{
}

/// A replacement moves an end of the window to a crossing that lies on the
/// segment, with an edge that the segment is not parallel to.
pub proof fn lemma_replaced(line: Line, rectangle: ClippingRectangle, window: (Parameter, Parameter))
    requires
        rectangle.well_formed(),
        window.0.on_segment(),
        window.1.on_segment(),
        !accepted(line, rectangle, window),
        !beyond_one_edge(line, rectangle, window),
    ensures
        ({
            let t = if !inside_at(line, rectangle, window.0) {
                window.0
            } else {
                window.1
            };
            &&& !inside_at(line, rectangle, t)
            &&& above_at(line, rectangle, t) || below_at(line, rectangle, t) ==> line.dy() != 0
            &&& !above_at(line, rectangle, t) && !below_at(line, rectangle, t) ==> line.dx() != 0
            &&& crossing_position(line, rectangle, t).on_segment()
        }),
        replaced(line, rectangle, window).0.on_segment(),
        replaced(line, rectangle, window).1.on_segment(),
{
    let x1 = line.first.x as int;
    let y1 = line.first.y as int;
    lemma_scaled_between(x1, line.dx(), window.0);
    lemma_scaled_between(x1, line.dx(), window.1);
    lemma_scaled_between(y1, line.dy(), window.0);
    lemma_scaled_between(y1, line.dy(), window.1);
    let x2 = x1 + line.dx();
    let y2 = y1 + line.dy();
    lemma_scaled_order(y1, rectangle.y_max() as int, window.0.den);
    lemma_scaled_order(y1, rectangle.y_max() as int, window.1.den);
    lemma_scaled_order(y2, rectangle.y_max() as int, window.0.den);
    lemma_scaled_order(y2, rectangle.y_max() as int, window.1.den);
    lemma_scaled_order(y1, rectangle.y_min() as int, window.0.den);
    lemma_scaled_order(y1, rectangle.y_min() as int, window.1.den);
    lemma_scaled_order(y2, rectangle.y_min() as int, window.0.den);
    lemma_scaled_order(y2, rectangle.y_min() as int, window.1.den);
    lemma_scaled_order(x1, rectangle.x_max() as int, window.0.den);
    lemma_scaled_order(x1, rectangle.x_max() as int, window.1.den);
    lemma_scaled_order(x2, rectangle.x_max() as int, window.0.den);
    lemma_scaled_order(x2, rectangle.x_max() as int, window.1.den);
    lemma_scaled_order(x1, rectangle.x_min() as int, window.0.den);
    lemma_scaled_order(x1, rectangle.x_min() as int, window.1.den);
    lemma_scaled_order(x2, rectangle.x_min() as int, window.0.den);
    lemma_scaled_order(x2, rectangle.x_min() as int, window.1.den);
}

/// Computes `position_of(value, start, end - start)`.
pub fn position(value: i32, start: i32, end: i32) -> (t: (i64, i64))
    requires
        start != end,
    ensures
        (Parameter { num: t.0 as int, den: t.1 as int }) == position_of(
            value as int,
            start as int,
            end - start,
        ),
        0 < t.1 <= 0xffff_ffff,
{
    let extent: i64 = end as i64 - start as i64;
    if extent > 0 {
        (value as i64 - start as i64, extent)
    } else {
        (start as i64 - value as i64, -extent)
    }
}

/// Clips a segment against a rectangle by region codes.
///
/// While the segment is neither all inside nor beyond one common edge, the
/// end that is outside (the first one before the last) is replaced by the
/// exact crossing of the segment with an edge that the end is beyond, and
/// the region code of the exact crossing is taken.  Only the two ends that
/// are returned are rounded to the lattice.
pub fn cohen_sutherland_line_clip(line: &Line, rectangle: &ClippingRectangle) -> (result: Option<Line>)
    ensures
        result == cohen_sutherland(*line, *rectangle),
{
    proof {
        use_type_invariant(rectangle);
        lemma_four_replacements_settle(*line, *rectangle);
    }
    let mut enter_num: i64 = 0;
    let mut enter_den: i64 = 1;
    let mut leave_num: i64 = 1;
    let mut leave_den: i64 = 1;
    let mut first_out_code = compute_out_code(&line.first, rectangle);
    let mut last_out_code = compute_out_code(&line.last, rectangle);
    let ghost mut rounds: nat = 4;
    loop
        invariant
            rectangle.well_formed(),
            0 <= enter_num <= enter_den <= 0xffff_ffff,
            0 <= leave_num <= leave_den <= 0xffff_ffff,
            enter_den > 0,
            leave_den > 0,
            first_out_code == code_at(
                *line,
                *rectangle,
                Parameter { num: enter_num as int, den: enter_den as int },
            ),
            last_out_code == code_at(
                *line,
                *rectangle,
                Parameter { num: leave_num as int, den: leave_den as int },
            ),
            settles_within(
                *line,
                *rectangle,
                (
                    Parameter { num: enter_num as int, den: enter_den as int },
                    Parameter { num: leave_num as int, den: leave_den as int },
                ),
                rounds,
            ),
            settled(
                *line,
                *rectangle,
                (
                    Parameter { num: enter_num as int, den: enter_den as int },
                    Parameter { num: leave_num as int, den: leave_den as int },
                ),
                rounds,
            ) == visible_part(*line, *rectangle),
        decreases rounds,
    {
        let ghost enter = Parameter { num: enter_num as int, den: enter_den as int };
        let ghost leave = Parameter { num: leave_num as int, den: leave_den as int };
        proof {
            lemma_code_at(*line, *rectangle, enter);
            lemma_code_at(*line, *rectangle, leave);
            lemma_code_pair(first_out_code, last_out_code);
            lemma_sides_exclusive(*line, *rectangle, enter);
            lemma_sides_exclusive(*line, *rectangle, leave);
        }
        if (first_out_code | last_out_code) == 0 {
            let first = evaluate(line, enter_num as i128, enter_den as i128);
            let last = evaluate(line, leave_num as i128, leave_den as i128);
            return Some(Line { first, last });
        } else if (first_out_code & last_out_code) != 0 {
            return None;
        } else {
            proof {
                lemma_replaced(*line, *rectangle, (enter, leave));
            }
            let out_code = if first_out_code != 0 {
                first_out_code
            } else {
                last_out_code
            };
            let crossing: (i64, i64) = if out_code & TOP != 0 {
                position(rectangle.y_max, line.first.y, line.last.y)
            } else if out_code & BOTTOM != 0 {
                position(rectangle.y_min, line.first.y, line.last.y)
            } else if out_code & RIGHT != 0 {
                position(rectangle.x_max, line.first.x, line.last.x)
            } else {
                position(rectangle.x_min, line.first.x, line.last.x)
            };
            let code = compute_exact_out_code(line, crossing.0, crossing.1, rectangle);
            if first_out_code != 0 {
                enter_num = crossing.0;
                enter_den = crossing.1;
                first_out_code = code;
            } else {
                leave_num = crossing.0;
                leave_den = crossing.1;
                last_out_code = code;
            }
            proof {
                rounds = (rounds - 1) as nat;
            }
        }
    }
}

/// On which side of the directed `edge` the point `p` lies: the dot product
/// of the edge's left normal with the displacement from the edge's start to
/// `p`.  For a clip polygon the interior is where the value is negative.
pub open spec fn side(edge: Line, p: Point2d) -> int {
    cross_product(edge.dx(), edge.dy(), p.x - edge.first.x, p.y - edge.first.y)
}

/// The edge of a polygon that starts at vertex `i` and ends at the next
/// vertex; the last vertex is followed by the first.
pub open spec fn polygon_edge(polygon: Seq<Point2d>, i: int) -> Line {
    Line {
        first: polygon[i],
        last: polygon[if i + 1 == polygon.len() {
            0
        } else {
            i + 1
        }],
    }
}

/// Computes `side(edge, p)`.
pub fn edge_side(edge: &Line, p: &Point2d) -> (s: i128)
    ensures
        s == side(*edge, *p),
        -0x1_ffff_fffc_0000_0002 <= s <= 0x1_ffff_fffc_0000_0002,
{
    let direction = Vector2d::from_2d_points(&edge.first, &edge.last);
    let to_point = Vector2d::from_2d_points(&edge.first, p);
    direction.cross(&to_point)
}

/// A position along a segment as an exact fraction with a positive
/// denominator: 0 is the segment's first point, 1 its last.
pub struct Parameter {
    pub num: int,
    pub den: int,
}

impl Parameter {
    pub open spec fn zero() -> Parameter {
        Parameter { num: 0, den: 1 }
    }

    pub open spec fn one() -> Parameter {
        Parameter { num: 1, den: 1 }
    }

    /// Whether `self` is strictly before `other`.
    pub open spec fn lt(self, other: Parameter) -> bool {
        self.num * other.den < other.num * self.den
    }

    /// Whether `self` is not after `other`.
    pub open spec fn le(self, other: Parameter) -> bool {
        !other.lt(self)
    }

    /// Whether the position lies on the segment, from 0 to 1.
    pub open spec fn on_segment(self) -> bool {
        self.den > 0 && 0 <= self.num <= self.den
    }
}

/// The lattice point nearest to the position `t` of the segment.
pub open spec fn point_at(line: Line, t: Parameter) -> Point2d {
    Point2d {
        x: (line.first.x + round_div(line.dx() * t.num, t.den)) as i32,
        y: (line.first.y + round_div(line.dy() * t.num, t.den)) as i32,
    }
}

/// The part of the segment that the first `count` edges of the polygon leave
/// visible, as the pair of the position where the segment has entered all
/// of them and the position where it first leaves one.
///
/// An edge that the segment crosses inward raises the entry position to the
/// crossing if that is later; an edge crossed outward lowers the exit
/// position to the crossing if that is earlier; an edge parallel to the
/// segment changes nothing.
pub open spec fn visible_window(line: Line, polygon: Seq<Point2d>, count: int) -> (Parameter, Parameter)
    decreases count,
{
    if count <= 0 {
        (Parameter::zero(), Parameter::one())
    } else {
        let (enter, leave) = visible_window(line, polygon, count - 1);
        let edge = polygon_edge(polygon, count - 1);
        let at_first = side(edge, line.first);
        let at_last = side(edge, line.last);
        if at_last < at_first {
            let t = Parameter { num: at_first, den: at_first - at_last };
            (
                if enter.lt(t) {
                    t
                } else {
                    enter
                },
                leave,
            )
        } else if at_last > at_first {
            let t = Parameter { num: -at_first, den: at_last - at_first };
            (
                enter,
                if t.lt(leave) {
                    t
                } else {
                    leave
                },
            )
        } else {
            (enter, leave)
        }
    }
}

/// The result of clipping a segment against a convex polygon whose edges
/// run counter-clockwise.
///
/// A segment of length zero and a polygon of fewer than three vertices leave
/// the segment as it is.  Otherwise the segment is cut to its visible
/// window, or nothing is left where the window is empty.
pub open spec fn cyrus_beck(line: Line, polygon: Seq<Point2d>) -> Option<Line> {
    if line.first == line.last || polygon.len() < 3 {
        Some(line)
    } else {
        let (enter, leave) = visible_window(line, polygon, polygon.len() as int);
        if leave.lt(enter) {
            None
        } else {
            Some(Line { first: point_at(line, enter), last: point_at(line, leave) })
        }
    }
}

/// The entry position never precedes the segment's first point and the exit
/// position never follows its last; both denominators are positive.
pub proof fn lemma_visible_window_range(line: Line, polygon: Seq<Point2d>, count: int)
    ensures
        visible_window(line, polygon, count).0.den > 0,
        visible_window(line, polygon, count).1.den > 0,
        visible_window(line, polygon, count).0.num >= 0,
        visible_window(line, polygon, count).1.num <= visible_window(line, polygon, count).1.den,
    decreases count,
{
    if count > 0 {
        lemma_visible_window_range(line, polygon, count - 1);
        let (enter, leave) = visible_window(line, polygon, count - 1);
        let edge = polygon_edge(polygon, count - 1);
        let at_first = side(edge, line.first);
        let at_last = side(edge, line.last);
        if at_last < at_first {
            let t = Parameter { num: at_first, den: at_first - at_last };
            if enter.lt(t) {
                assert(t.num >= 0) by (nonlinear_arith)
                    requires
                        enter.num * t.den < t.num * enter.den,
                        enter.num >= 0,
                        enter.den > 0,
                        t.den > 0,
                ;
            }
        } else if at_last > at_first {
            let t = Parameter { num: -at_first, den: at_last - at_first };
            if t.lt(leave) {
                assert(t.num <= t.den) by (nonlinear_arith)
                    requires
                        t.num * leave.den < leave.num * t.den,
                        leave.num <= leave.den,
                        leave.den > 0,
                        t.den > 0,
                ;
            }
        }
    }
}

/// A non-empty window whose entry is not before 0 and whose exit is not
/// after 1 lies on the segment.
pub proof fn lemma_window_on_segment(enter: Parameter, leave: Parameter)
    by (nonlinear_arith)
    requires
        enter.den > 0,
        leave.den > 0,
        enter.num >= 0,
        leave.num <= leave.den,
        !leave.lt(enter),
    ensures
        enter.on_segment(),
        leave.on_segment(),
{
}

/// The point of the segment at the position `num / den`.
fn evaluate(line: &Line, num: i128, den: i128) -> (p: Point2d)
    requires
        0 <= num <= den < 0x4_0000_0000_0000_0000,
        den > 0,
    ensures
        p == point_at(*line, Parameter { num: num as int, den: den as int }),
        between(line.first.x as int, p.x as int, line.last.x as int),
        between(line.first.y as int, p.y as int, line.last.y as int),
{
    let dx: i128 = line.last.x as i128 - line.first.x as i128;
    let dy: i128 = line.last.y as i128 - line.first.y as i128;
    proof {
        lemma_product_bound(dx as int, 0xffff_ffff, num as int, 0x4_0000_0000_0000_0000);
        lemma_product_bound(dy as int, 0xffff_ffff, num as int, 0x4_0000_0000_0000_0000);
        lemma_round_ratio_between(dx as int, num as int, den as int);
        lemma_round_ratio_between(dy as int, num as int, den as int);
    }
    let x: i128 = line.first.x as i128 + div_round(dx * num, den);
    let y: i128 = line.first.y as i128 + div_round(dy * num, den);
    Point2d::new(x as i32, y as i32)
}

/// Clips a segment against a convex polygon given by its vertices in
/// counter-clockwise order.
pub fn cyrus_beck_line_clip(line: &Line, clipping_polygon: &Vec<Point2d>) -> (result: Option<Line>)
    ensures
        result == cyrus_beck(*line, clipping_polygon@),
{
    let length = clipping_polygon.len();
    if (line.first.x == line.last.x && line.first.y == line.last.y) || length < 3 {
        return Some(*line);
    }
    let mut enter_num: i128 = 0;
    let mut enter_den: i128 = 1;
    let mut leave_num: i128 = 1;
    let mut leave_den: i128 = 1;
    let mut i: usize = 0;
    while i < length
        invariant
            length == clipping_polygon@.len(),
            length >= 3,
            0 <= i <= length,
            visible_window(*line, clipping_polygon@, i as int) == (
                Parameter { num: enter_num as int, den: enter_den as int },
                Parameter { num: leave_num as int, den: leave_den as int },
            ),
            0 < enter_den < 0x4_0000_0000_0000_0000,
            0 < leave_den < 0x4_0000_0000_0000_0000,
            -0x4_0000_0000_0000_0000 < enter_num < 0x4_0000_0000_0000_0000,
            -0x4_0000_0000_0000_0000 < leave_num < 0x4_0000_0000_0000_0000,
        decreases length - i,
    {
        let next: usize = if i == length - 1 {
            0
        } else {
            i + 1
        };
        let edge = Line { first: clipping_polygon[i], last: clipping_polygon[next] };
        assert(edge == polygon_edge(clipping_polygon@, i as int));
        let at_first = edge_side(&edge, &line.first);
        let at_last = edge_side(&edge, &line.last);
        if at_last < at_first {
            let num = at_first;
            let den = at_first - at_last;
            if fraction_lt(enter_num, enter_den, num, den) {
                enter_num = num;
                enter_den = den;
            }
        } else if at_last > at_first {
            let num = -at_first;
            let den = at_last - at_first;
            if fraction_lt(num, den, leave_num, leave_den) {
                leave_num = num;
                leave_den = den;
            }
        }
        i = i + 1;
    }
    proof {
        lemma_visible_window_range(*line, clipping_polygon@, length as int);
    }
    if fraction_lt(leave_num, leave_den, enter_num, enter_den) {
        None
    } else {
        proof {
            lemma_window_on_segment(
                Parameter { num: enter_num as int, den: enter_den as int },
                Parameter { num: leave_num as int, den: leave_den as int },
            );
        }
        let first = evaluate(line, enter_num, enter_den);
        let last = evaluate(line, leave_num, leave_den);
        Some(Line { first, last })
    }
}

/// Whether the vertex lies strictly on the inner side of the clipping edge.
pub open spec fn is_inside(vertex: Point2d, clipping_edge: Line) -> bool {
    side(clipping_edge, vertex) < 0
}

/// Whether an integer is a coordinate of the lattice.
pub open spec fn fits_lattice(v: int) -> bool {
    i32::MIN <= v <= i32::MAX
}

/// The position on the line through the end points of `polygon_edge` at
/// which that line meets the line through `clipping_edge`: 0 is the first
/// end point, 1 the last, and the position may lie before or behind both.
/// The two lines must not be parallel.
pub open spec fn meeting_position(polygon_edge: Line, clipping_edge: Line) -> Parameter {
    let at_first = side(clipping_edge, polygon_edge.first);
    let at_last = side(clipping_edge, polygon_edge.last);
    if at_last < at_first {
        Parameter { num: at_first, den: at_first - at_last }
    } else {
        Parameter { num: -at_first, den: at_last - at_first }
    }
}

/// The lattice point nearest to where the line through the end points of
/// `polygon_edge` meets the line through `clipping_edge`.  There is none
/// where the two lines are parallel, or where a clipping edge has no
/// length, and none where the point lies outside the lattice.
pub open spec fn crossing(polygon_edge: Line, clipping_edge: Line) -> Option<Point2d> {
    let t = meeting_position(polygon_edge, clipping_edge);
    let x = polygon_edge.first.x + round_div(polygon_edge.dx() * t.num, t.den);
    let y = polygon_edge.first.y + round_div(polygon_edge.dy() * t.num, t.den);
    if side(clipping_edge, polygon_edge.first) == side(clipping_edge, polygon_edge.last) {
        None
    } else if fits_lattice(x) && fits_lattice(y) {
        Some(Point2d { x: x as i32, y: y as i32 })
    } else {
        None
    }
}

/// The polygon clipped by the half-plane on the inner side of one edge, or
/// nothing where no corner is left.  The corners are found exactly and then
/// rounded to the lattice; the colour is kept.
pub open spec fn half_plane_clip(polygon: PolygonView, clipping_edge: Line) -> Option<PolygonView> {
    match half_plane_corners(polygon_corners(polygon.points), clipping_edge) {
        Some(corners) => Some(
            PolygonView { points: lattice_points(corners, corners.len() as int), color: polygon.color },
        ),
        None => None,
    }
}

/// The result of clipping a polygon against a convex polygon whose edges
/// run counter-clockwise.
///
/// The polygon is clipped by the edges of the clip polygon in turn; nothing
/// is left as soon as one edge leaves no corner.  Every crossing is kept
/// exact from one edge to the next, and every decision is taken on the
/// exact corner.  Only the corners of the finished polygon are rounded to
/// the lattice.  The colour is kept.
pub open spec fn sutherland_hodgman(polygon: PolygonView, clipping_polygon: Seq<Point2d>) -> Option<
    PolygonView,
> {
    match clipped_by(polygon_corners(polygon.points), clipping_polygon, clipping_polygon.len() as int) {
        Some(corners) => Some(
            PolygonView { points: lattice_points(corners, corners.len() as int), color: polygon.color },
        ),
        None => None,
    }
}

/// Whether the vertex lies strictly on the inner side of the clipping edge.
pub fn inside(vertex: &Point2d, clipping_edge: &Line) -> (r: bool)
    ensures
        r == is_inside(*vertex, *clipping_edge),
{
    edge_side(clipping_edge, vertex) < 0
}

/// Where the line through the polygon edge meets the line through the
/// clipping edge.
pub fn intersect(polygon_edge: &Line, clipping_edge: &Line) -> (meeting: Option<Point2d>)
    ensures
        meeting == crossing(*polygon_edge, *clipping_edge),
{
    let at_first = edge_side(clipping_edge, &polygon_edge.first);
    let at_last = edge_side(clipping_edge, &polygon_edge.last);
    if at_first == at_last {
        return None;
    }
    let num: i128 = if at_last < at_first {
        at_first
    } else {
        -at_first
    };
    let den: i128 = if at_last < at_first {
        at_first - at_last
    } else {
        at_last - at_first
    };
    let dx: i128 = polygon_edge.last.x as i128 - polygon_edge.first.x as i128;
    let dy: i128 = polygon_edge.last.y as i128 - polygon_edge.first.y as i128;
    proof {
        lemma_product_bound(dx as int, 0xffff_ffff, num as int, 0x4_0000_0000_0000_0000);
        lemma_product_bound(dy as int, 0xffff_ffff, num as int, 0x4_0000_0000_0000_0000);
        lemma_round_div_magnitude(dx * num, den as int);
        lemma_round_div_magnitude(dy * num, den as int);
    }
    let x: i128 = polygon_edge.first.x as i128 + div_round(dx * num, den);
    let y: i128 = polygon_edge.first.y as i128 + div_round(dy * num, den);
    if -0x8000_0000 <= x && x <= 0x7fff_ffff && -0x8000_0000 <= y && y <= 0x7fff_ffff {
        Some(Point2d::new(x as i32, y as i32))
    } else {
        None
    }
}

/// Clips a polygon by the half-plane on the inner side of one edge, which
/// runs from the first point of the pair to the second.
pub fn sutherland_hodgman_polygon_edge_clip(polygon: &Polygon, clipping_edge: (&Point2d, &Point2d)) -> (result:
    Option<Polygon>)
    ensures
        view_of(result) == half_plane_clip(
            polygon@,
            Line { first: *clipping_edge.0, last: *clipping_edge.1 },
        ),
{
    let edge = Line { first: *clipping_edge.0, last: *clipping_edge.1 };
    let corners = corners_of(polygon.get_points());
    match clip_corners(&corners, &edge) {
        Some(clipped) => Some(Polygon::new(polygon.get_color(), lattice_points_of(&clipped))),
        None => None,
    }
}

/// Clips a polygon against a convex polygon given by its vertices in
/// counter-clockwise order, one clipping edge after the other.
pub fn sutherland_hodgman_polygon_clip(polygon: &Polygon, clipping_polygon: &Vec<Point2d>) -> (result: Option<
    Polygon,
>)
    ensures
        view_of(result) == sutherland_hodgman(polygon@, clipping_polygon@),
{
    let length = clipping_polygon.len();
    let mut corners: Option<Vec<Corner>> = Some(corners_of(polygon.get_points()));
    let mut i: usize = 0;
    while i < length
        invariant
            length == clipping_polygon@.len(),
            0 <= i <= length,
            match corners {
                Some(partial) => clipped_by(polygon_corners(polygon@.points), clipping_polygon@, i as int)
                    == Some(partial@) && all_well_formed(partial@),
                None => clipped_by(polygon_corners(polygon@.points), clipping_polygon@, i as int).is_none(),
            },
        decreases length - i,
    {
        let begin = clipping_polygon[i];
        let end_index: usize = if i == length - 1 {
            0
        } else {
            i + 1
        };
        let end = clipping_polygon[end_index];
        let edge = Line { first: begin, last: end };
        assert(edge == polygon_edge(clipping_polygon@, i as int));
        corners = match corners {
            None => None,
            Some(partial) => clip_corners(&partial, &edge),
        };
        i = i + 1;
    }
    match corners {
        Some(clipped) => Some(Polygon::new(polygon.get_color(), lattice_points_of(&clipped))),
        None => None,
    }
}

} // verus!
