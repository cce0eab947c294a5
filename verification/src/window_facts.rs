//! What holds of the visible window of a segment in a convex polygon: it
//! lies on the inner side of every edge that the segment is not parallel to,
//! and a segment inside the polygon keeps its whole length.

use vstd::prelude::*;
use crate::arith::{lemma_round_div_multiple, lemma_round_div_same_ratio, lemma_round_ratio_between};
use crate::clipping::{
    cohen_sutherland, cyrus_beck, in_bounding_box, inside_at, lemma_visible_window_range,
    lemma_window_on_segment, point_at, polygon_edge, scaled_x, scaled_y, side, visible_part,
    visible_window, ClippingRectangle, Parameter,
};
use crate::corners::side_at;
use crate::line::Line;
use crate::point2d::Point2d;
use crate::rectangle_clip_facts::{lemma_cohen_sutherland_visible, visible_at};

verus! {

proof fn lemma_parameter_order(a: Parameter, b: Parameter, c: Parameter)
    by (nonlinear_arith)
    requires
        a.den > 0,
        b.den > 0,
        c.den > 0,
        a.le(b),
        b.le(c),
    ensures
        a.le(c),
{
}

proof fn lemma_window_narrows(line: Line, polygon: Seq<Point2d>, low: int, high: int)
    requires
        low <= high,
    ensures
        visible_window(line, polygon, low).0.le(visible_window(line, polygon, high).0),
        visible_window(line, polygon, high).1.le(visible_window(line, polygon, low).1),
    decreases high - low,
{
    if low < high {
        lemma_window_narrows(line, polygon, low, high - 1);
        lemma_visible_window_range(line, polygon, low);
        lemma_visible_window_range(line, polygon, high - 1);
        lemma_visible_window_range(line, polygon, high);
        lemma_parameter_order(
            visible_window(line, polygon, low).0,
            visible_window(line, polygon, high - 1).0,
            visible_window(line, polygon, high).0,
        );
        lemma_parameter_order(
            visible_window(line, polygon, high).1,
            visible_window(line, polygon, high - 1).1,
            visible_window(line, polygon, low).1,
        );
    }
}

/// Every exact point of the segment within the visible window lies on the
/// inner side of, or on, every edge of the polygon that is not parallel to
/// the segment.
pub proof fn lemma_visible_window_inside(line: Line, polygon: Seq<Point2d>, count: int, i: int, t: Parameter)
    requires
        0 <= i < count,
        t.den > 0,
        visible_window(line, polygon, count).0.le(t),
        t.le(visible_window(line, polygon, count).1),
        side(polygon_edge(polygon, i), line.first) != side(polygon_edge(polygon, i), line.last),
    ensures
        side_at(line, polygon_edge(polygon, i), t) <= 0,
{
    let edge = polygon_edge(polygon, i);
    let at_first = side(edge, line.first);
    let at_last = side(edge, line.last);
    let (enter, leave) = visible_window(line, polygon, count);
    let (enter_here, leave_here) = visible_window(line, polygon, i + 1);
    lemma_window_narrows(line, polygon, i + 1, count);
    lemma_visible_window_range(line, polygon, count);
    lemma_visible_window_range(line, polygon, i + 1);
    lemma_visible_window_range(line, polygon, i);
    if at_last < at_first {
        let crossing = Parameter { num: at_first, den: at_first - at_last };
        assert(crossing.le(enter_here));
        lemma_parameter_order(crossing, enter_here, enter);
        lemma_parameter_order(crossing, enter, t);
        assert(side_at(line, edge, t) <= 0) by (nonlinear_arith)
            requires
                crossing.le(t),
                crossing.num == at_first,
                crossing.den == at_first - at_last,
                side_at(line, edge, t) == at_first * t.den + t.num * (at_last - at_first),
        ;
    } else {
        let crossing = Parameter { num: -at_first, den: at_last - at_first };
        assert(leave_here.le(crossing));
        lemma_parameter_order(leave, leave_here, crossing);
        lemma_parameter_order(t, leave, crossing);
        assert(side_at(line, edge, t) <= 0) by (nonlinear_arith)
            requires
                t.le(crossing),
                crossing.num == -at_first,
                crossing.den == at_last - at_first,
                side_at(line, edge, t) == at_first * t.den + t.num * (at_last - at_first),
        ;
    }
}

/// A segment whose two end points lie on the inner side of every edge of the
/// polygon, or on the edge itself, is returned as it is.
pub proof fn lemma_cyrus_beck_inside(line: Line, polygon: Seq<Point2d>)
    requires
        forall|i: int|
            0 <= i < polygon.len() ==> side(#[trigger] polygon_edge(polygon, i), line.first) <= 0 && side(
                polygon_edge(polygon, i),
                line.last,
            ) <= 0,
    ensures
        cyrus_beck(line, polygon) == Some(line),
{
    if line.first != line.last && polygon.len() >= 3 {
        lemma_window_untouched(line, polygon, polygon.len() as int);
        lemma_round_div_multiple(0, 1);
        lemma_round_div_multiple(line.dx(), 1);
        lemma_round_div_multiple(line.dy(), 1);
        assert(line.dx() * 0 == 0 * 1) by (nonlinear_arith);
        assert(line.dy() * 0 == 0 * 1) by (nonlinear_arith);
    }
}

proof fn lemma_window_untouched(line: Line, polygon: Seq<Point2d>, count: int)
    requires
        count <= polygon.len(),
        forall|i: int|
            0 <= i < polygon.len() ==> side(#[trigger] polygon_edge(polygon, i), line.first) <= 0 && side(
                polygon_edge(polygon, i),
                line.last,
            ) <= 0,
    ensures
        visible_window(line, polygon, count) == (Parameter::zero(), Parameter::one()),
    decreases count,
{
    if count > 0 {
        lemma_window_untouched(line, polygon, count - 1);
        let edge = polygon_edge(polygon, count - 1);
        let at_first = side(edge, line.first);
        let at_last = side(edge, line.last);
        assert(0 * (at_first - at_last) == 0) by (nonlinear_arith);
    }
}

/// What is left of a segment lies within the bounding box of the segment.
pub proof fn lemma_cyrus_beck_visible(line: Line, polygon: Seq<Point2d>)
    ensures
        cyrus_beck(line, polygon) matches Some(visible) ==> in_bounding_box(line, visible.first)
            && in_bounding_box(line, visible.last),
{
    if line.first != line.last && polygon.len() >= 3 {
        let (enter, leave) = visible_window(line, polygon, polygon.len() as int);
        lemma_visible_window_range(line, polygon, polygon.len() as int);
        if !leave.lt(enter) {
            lemma_window_on_segment(enter, leave);
            lemma_round_ratio_between(line.dx(), enter.num, enter.den);
            lemma_round_ratio_between(line.dy(), enter.num, enter.den);
            lemma_round_ratio_between(line.dx(), leave.num, leave.den);
            lemma_round_ratio_between(line.dy(), leave.num, leave.den);
        }
    }
}

/// The visible window holds every position of the segment that lies on the
/// inner side of every edge of the polygon, or on the edge.
pub proof fn lemma_visible_window_complete(line: Line, polygon: Seq<Point2d>, count: int, t: Parameter)
    requires
        t.on_segment(),
        forall|i: int| 0 <= i < count ==> side_at(line, #[trigger] polygon_edge(polygon, i), t) <= 0,
    ensures
        visible_window(line, polygon, count).0.le(t),
        t.le(visible_window(line, polygon, count).1),
    decreases count,
{
    if count > 0 {
        lemma_visible_window_complete(line, polygon, count - 1, t);
        let edge = polygon_edge(polygon, count - 1);
        let at_first = side(edge, line.first);
        let at_last = side(edge, line.last);
        assert(side_at(line, edge, t) <= 0);
        if at_last < at_first {
            let crossing = Parameter { num: at_first, den: at_first - at_last };
            assert(crossing.le(t)) by (nonlinear_arith)
                requires
                    crossing.num == at_first,
                    crossing.den == at_first - at_last,
                    at_first * t.den + t.num * (at_last - at_first) <= 0,
            ;
        } else if at_last > at_first {
            let crossing = Parameter { num: -at_first, den: at_last - at_first };
            assert(t.le(crossing)) by (nonlinear_arith)
                requires
                    crossing.num == -at_first,
                    crossing.den == at_last - at_first,
                    at_first * t.den + t.num * (at_last - at_first) <= 0,
            ;
        }
    } else {
        assert(Parameter::zero().le(t) && t.le(Parameter::one())) by (nonlinear_arith)
            requires
                0 <= t.num <= t.den,
                Parameter::zero().num == 0,
                Parameter::zero().den == 1,
                Parameter::one().num == 1,
                Parameter::one().den == 1,
        ;
    }
}

/// The rectangle as a polygon: its four corners, in the order that has the
/// inside on the inner side of every edge.
pub open spec fn rectangle_polygon(rectangle: ClippingRectangle) -> Seq<Point2d> {
    seq![
        Point2d { x: rectangle.x_min(), y: rectangle.y_min() },
        Point2d { x: rectangle.x_min(), y: rectangle.y_max() },
        Point2d { x: rectangle.x_max(), y: rectangle.y_max() },
        Point2d { x: rectangle.x_max(), y: rectangle.y_min() },
    ]
}

/// On which side of the four edges of the rectangle polygon an exact point
/// of the segment lies: the side is the excess of the point beyond the
/// matching edge of the rectangle, times the length of the polygon edge.
proof fn lemma_rectangle_sides(line: Line, rectangle: ClippingRectangle, t: Parameter)
    ensures
        ({
            let polygon = rectangle_polygon(rectangle);
            let width = rectangle.x_max() - rectangle.x_min();
            let height = rectangle.y_max() - rectangle.y_min();
            &&& side_at(line, polygon_edge(polygon, 0), t) == height * (rectangle.x_min() * t.den - scaled_x(
                line,
                t,
            ))
            &&& side_at(line, polygon_edge(polygon, 1), t) == width * (scaled_y(line, t) - rectangle.y_max()
                * t.den)
            &&& side_at(line, polygon_edge(polygon, 2), t) == height * (scaled_x(line, t) - rectangle.x_max()
                * t.den)
            &&& side_at(line, polygon_edge(polygon, 3), t) == width * (rectangle.y_min() * t.den - scaled_y(
                line,
                t,
            ))
            &&& side(polygon_edge(polygon, 0), line.last) - side(polygon_edge(polygon, 0), line.first)
                == -(height * line.dx())
            &&& side(polygon_edge(polygon, 1), line.last) - side(polygon_edge(polygon, 1), line.first)
                == width * line.dy()
            &&& side(polygon_edge(polygon, 2), line.last) - side(polygon_edge(polygon, 2), line.first)
                == height * line.dx()
            &&& side(polygon_edge(polygon, 3), line.last) - side(polygon_edge(polygon, 3), line.first)
                == -(width * line.dy())
        }),
{
    let polygon = rectangle_polygon(rectangle);
    let x_min = rectangle.x_min() as int;
    let x_max = rectangle.x_max() as int;
    let y_min = rectangle.y_min() as int;
    let y_max = rectangle.y_max() as int;
    let x1 = line.first.x as int;
    let y1 = line.first.y as int;
    let x2 = line.last.x as int;
    let y2 = line.last.y as int;
    let width = x_max - x_min;
    let height = y_max - y_min;
    let e0 = polygon_edge(polygon, 0);
    let e1 = polygon_edge(polygon, 1);
    let e2 = polygon_edge(polygon, 2);
    let e3 = polygon_edge(polygon, 3);
    assert(e0.first == polygon[0] && e0.last == polygon[1]);
    assert(e1.first == polygon[1] && e1.last == polygon[2]);
    assert(e2.first == polygon[2] && e2.last == polygon[3]);
    assert(e3.first == polygon[3] && e3.last == polygon[0]);
    assert(side(e0, line.first) == -(height * (x1 - x_min)) && side(e0, line.last) == -(height * (x2
        - x_min))) by (nonlinear_arith)
        requires
            side(e0, line.first) == 0 * (y1 - y_min) - height * (x1 - x_min),
            side(e0, line.last) == 0 * (y2 - y_min) - height * (x2 - x_min),
    ;
    assert(side(e1, line.first) == width * (y1 - y_max) && side(e1, line.last) == width * (y2 - y_max))
        by (nonlinear_arith)
        requires
            side(e1, line.first) == width * (y1 - y_max) - 0 * (x1 - x_min),
            side(e1, line.last) == width * (y2 - y_max) - 0 * (x2 - x_min),
    ;
    assert(side(e2, line.first) == height * (x1 - x_max) && side(e2, line.last) == height * (x2 - x_max))
        by (nonlinear_arith)
        requires
            side(e2, line.first) == 0 * (y1 - y_max) - (-height) * (x1 - x_max),
            side(e2, line.last) == 0 * (y2 - y_max) - (-height) * (x2 - x_max),
    ;
    assert(side(e3, line.first) == -(width * (y1 - y_min)) && side(e3, line.last) == -(width * (y2
        - y_min))) by (nonlinear_arith)
        requires
            side(e3, line.first) == (-width) * (y1 - y_min) - 0 * (x1 - x_max),
            side(e3, line.last) == (-width) * (y2 - y_min) - 0 * (x2 - x_max),
    ;
    let sx = scaled_x(line, t);
    let sy = scaled_y(line, t);
    assert(side_at(line, e0, t) == height * (x_min * t.den - sx)) by (nonlinear_arith)
        requires
            side_at(line, e0, t) == (-(height * (x1 - x_min))) * t.den + t.num * (-(height * (x2 - x_min))
                - (-(height * (x1 - x_min)))),
            sx == x1 * t.den + t.num * (x2 - x1),
    ;
    assert(side_at(line, e1, t) == width * (sy - y_max * t.den)) by (nonlinear_arith)
        requires
            side_at(line, e1, t) == (width * (y1 - y_max)) * t.den + t.num * (width * (y2 - y_max) - width
                * (y1 - y_max)),
            sy == y1 * t.den + t.num * (y2 - y1),
    ;
    assert(side_at(line, e2, t) == height * (sx - x_max * t.den)) by (nonlinear_arith)
        requires
            side_at(line, e2, t) == (height * (x1 - x_max)) * t.den + t.num * (height * (x2 - x_max)
                - height * (x1 - x_max)),
            sx == x1 * t.den + t.num * (x2 - x1),
    ;
    assert(side_at(line, e3, t) == width * (y_min * t.den - sy)) by (nonlinear_arith)
        requires
            side_at(line, e3, t) == (-(width * (y1 - y_min))) * t.den + t.num * (-(width * (y2 - y_min))
                - (-(width * (y1 - y_min)))),
            sy == y1 * t.den + t.num * (y2 - y1),
    ;
    assert(-(height * (x2 - x_min)) - (-(height * (x1 - x_min))) == -(height * (x2 - x1)))
        by (nonlinear_arith);
    assert(width * (y2 - y_max) - width * (y1 - y_max) == width * (y2 - y1)) by (nonlinear_arith);
    assert(height * (x2 - x_max) - height * (x1 - x_max) == height * (x2 - x1)) by (nonlinear_arith);
    assert(-(width * (y2 - y_min)) - (-(width * (y1 - y_min))) == -(width * (y2 - y1)))
        by (nonlinear_arith);
}

/// An exact point of the segment lies in a rectangle of positive width and
/// height exactly when it lies on the inner side of, or on, every edge of
/// the rectangle polygon.
proof fn lemma_rectangle_inside(line: Line, rectangle: ClippingRectangle, t: Parameter)
    requires
        rectangle.x_min() < rectangle.x_max(),
        rectangle.y_min() < rectangle.y_max(),
    ensures
        inside_at(line, rectangle, t) <==> (forall|i: int|
            0 <= i < 4 ==> side_at(line, #[trigger] polygon_edge(rectangle_polygon(rectangle), i), t) <= 0),
{
    let polygon = rectangle_polygon(rectangle);
    lemma_rectangle_sides(line, rectangle, t);
    let width = rectangle.x_max() - rectangle.x_min();
    let height = rectangle.y_max() - rectangle.y_min();
    let left = rectangle.x_min() * t.den - scaled_x(line, t);
    let above = scaled_y(line, t) - rectangle.y_max() * t.den;
    let right = scaled_x(line, t) - rectangle.x_max() * t.den;
    let below = rectangle.y_min() * t.den - scaled_y(line, t);
    assert((height * left <= 0 <==> left <= 0) && (height * right <= 0 <==> right <= 0)) by (nonlinear_arith)
        requires
            height > 0,
    ;
    assert((width * above <= 0 <==> above <= 0) && (width * below <= 0 <==> below <= 0)) by (nonlinear_arith)
        requires
            width > 0,
    ;
    if inside_at(line, rectangle, t) {
        assert forall|i: int| 0 <= i < 4 implies side_at(line, #[trigger] polygon_edge(polygon, i), t)
            <= 0 by {
            if i == 0 {
            } else if i == 1 {
            } else if i == 2 {
            } else {
            }
        }
    }
    if forall|i: int| 0 <= i < 4 ==> side_at(line, #[trigger] polygon_edge(polygon, i), t) <= 0 {
        assert(side_at(line, polygon_edge(polygon, 0), t) <= 0);
        assert(side_at(line, polygon_edge(polygon, 1), t) <= 0);
        assert(side_at(line, polygon_edge(polygon, 2), t) <= 0);
        assert(side_at(line, polygon_edge(polygon, 3), t) <= 0);
    }
}

/// Two positions that are each not after the other give the same lattice
/// point.
proof fn lemma_same_position(line: Line, s: Parameter, t: Parameter)
    requires
        s.den > 0,
        t.den > 0,
        s.le(t),
        t.le(s),
    ensures
        point_at(line, s) == point_at(line, t),
{
    assert(s.num * t.den == t.num * s.den);
    assert((line.dx() * s.num) * t.den == (line.dx() * t.num) * s.den) by (nonlinear_arith)
        requires
            s.num * t.den == t.num * s.den,
    ;
    assert((line.dy() * s.num) * t.den == (line.dy() * t.num) * s.den) by (nonlinear_arith)
        requires
            s.num * t.den == t.num * s.den,
    ;
    lemma_round_div_same_ratio(line.dx() * s.num, s.den, line.dx() * t.num, t.den);
    lemma_round_div_same_ratio(line.dy() * s.num, s.den, line.dy() * t.num, t.den);
}

/// On a rectangle of positive width and height, and for a segment that is
/// not parallel to an axis, the two line clippers return the same: clipping
/// by region codes against the rectangle, and clipping by the parameter
/// window against the rectangle as a polygon.
pub proof fn lemma_line_clippers_agree(line: Line, rectangle: ClippingRectangle)
    requires
        rectangle.x_min() < rectangle.x_max(),
        rectangle.y_min() < rectangle.y_max(),
        line.dx() != 0,
        line.dy() != 0,
    ensures
        cyrus_beck(line, rectangle_polygon(rectangle)) == cohen_sutherland(line, rectangle),
{
    let polygon = rectangle_polygon(rectangle);
    let (enter, leave) = visible_window(line, polygon, 4);
    lemma_visible_window_range(line, polygon, 4);
    lemma_cohen_sutherland_visible(line, rectangle);
    lemma_rectangle_sides(line, rectangle, enter);
    let width = rectangle.x_max() - rectangle.x_min();
    let height = rectangle.y_max() - rectangle.y_min();
    assert(height * line.dx() != 0 && width * line.dy() != 0) by (nonlinear_arith)
        requires
            height > 0,
            width > 0,
            line.dx() != 0,
            line.dy() != 0,
    ;
    assert(polygon.len() == 4);
    assert(line.first != line.last);
    if !leave.lt(enter) {
        lemma_window_on_segment(enter, leave);
        assert forall|i: int| 0 <= i < 4 implies side_at(line, #[trigger] polygon_edge(polygon, i), enter)
            <= 0 && side_at(line, polygon_edge(polygon, i), leave) <= 0 by {
            lemma_visible_window_inside(line, polygon, 4, i, enter);
            lemma_visible_window_inside(line, polygon, 4, i, leave);
        }
        lemma_rectangle_inside(line, rectangle, enter);
        lemma_rectangle_inside(line, rectangle, leave);
        assert(visible_at(line, rectangle, enter));
        assert(visible_at(line, rectangle, leave));
        let part = visible_part(line, rectangle).unwrap();
        lemma_rectangle_inside(line, rectangle, part.0);
        lemma_rectangle_inside(line, rectangle, part.1);
        lemma_visible_window_complete(line, polygon, 4, part.0);
        lemma_visible_window_complete(line, polygon, 4, part.1);
        lemma_parameter_order(part.1, leave, leave);
        lemma_same_position(line, enter, part.0);
        lemma_same_position(line, leave, part.1);
    } else {
        if let Some(part) = visible_part(line, rectangle) {
            lemma_rectangle_inside(line, rectangle, part.0);
            lemma_visible_window_complete(line, polygon, 4, part.0);
            lemma_parameter_order(enter, part.0, leave);
        }
    }
}

} // verus!
