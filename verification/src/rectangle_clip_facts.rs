//! What holds of segments clipped against a rectangle.  Four replacements
//! of an end always settle a segment; what they leave is the whole visible
//! part of the segment, and nothing is left exactly where no point of the
//! segment lies in the rectangle.

use vstd::prelude::*;
use crate::arith::{
    lemma_round_div_between, lemma_round_div_monotone, lemma_round_div_multiple, lemma_round_div_ordered,
    round_div,
};
use crate::clipping::{
    above_at, accepted, below_at, beyond_one_edge, bottom_position, cohen_sutherland, inside_at,
    left_at, left_position, lemma_replaced, lemma_scaled_order, point_at, position_of, replaced,
    right_at, right_position, scaled_x, scaled_y, settled, settles_within, top_position, visible_part,
    ClippingRectangle, Parameter,
};
use crate::line::Line;

verus! {

/// Where the four exact crossings lie.  Each crossing lies on its edge; the
/// crossings with the top and the bottom edge, and the two end points, are
/// ordered along x as the slope of the segment has it; and a crossing lies
/// beyond a corner on one edge exactly when the crossing with the other edge
/// of the corner lies on the matching side of the corner.
proof fn lemma_crossings(line: Line, rectangle: ClippingRectangle)
    requires
        rectangle.well_formed(),
    ensures
        ({
            let dx = line.dx();
            let dy = line.dy();
            let top = top_position(line, rectangle);
            let bottom = bottom_position(line, rectangle);
            let right = right_position(line, rectangle);
            let left = left_position(line, rectangle);
            let x1 = line.first.x as int;
            let y1 = line.first.y as int;
            let x2 = line.last.x as int;
            let y2 = line.last.y as int;
            let x_min = rectangle.x_min() as int;
            let x_max = rectangle.x_max() as int;
            let y_min = rectangle.y_min() as int;
            let y_max = rectangle.y_max() as int;
            &&& dy != 0 ==> {
                &&& top.den > 0 && top.den == bottom.den
                &&& scaled_y(line, top) == y_max * top.den
                &&& scaled_y(line, bottom) == y_min * bottom.den
                &&& dx * dy >= 0 ==> scaled_x(line, bottom) <= scaled_x(line, top)
                &&& dx * dy <= 0 ==> scaled_x(line, bottom) >= scaled_x(line, top)
                &&& dx * dy >= 0 && y1 <= y_max ==> x1 * top.den <= scaled_x(line, top)
                &&& dx * dy >= 0 && y1 >= y_max ==> x1 * top.den >= scaled_x(line, top)
                &&& dx * dy <= 0 && y1 <= y_max ==> x1 * top.den >= scaled_x(line, top)
                &&& dx * dy <= 0 && y1 >= y_max ==> x1 * top.den <= scaled_x(line, top)
                &&& dx * dy >= 0 && y2 <= y_max ==> x2 * top.den <= scaled_x(line, top)
                &&& dx * dy >= 0 && y2 >= y_max ==> x2 * top.den >= scaled_x(line, top)
                &&& dx * dy <= 0 && y2 <= y_max ==> x2 * top.den >= scaled_x(line, top)
                &&& dx * dy <= 0 && y2 >= y_max ==> x2 * top.den <= scaled_x(line, top)
                &&& dx * dy >= 0 && y1 <= y_min ==> x1 * bottom.den <= scaled_x(line, bottom)
                &&& dx * dy >= 0 && y1 >= y_min ==> x1 * bottom.den >= scaled_x(line, bottom)
                &&& dx * dy <= 0 && y1 <= y_min ==> x1 * bottom.den >= scaled_x(line, bottom)
                &&& dx * dy <= 0 && y1 >= y_min ==> x1 * bottom.den <= scaled_x(line, bottom)
                &&& dx * dy >= 0 && y2 <= y_min ==> x2 * bottom.den <= scaled_x(line, bottom)
                &&& dx * dy >= 0 && y2 >= y_min ==> x2 * bottom.den >= scaled_x(line, bottom)
                &&& dx * dy <= 0 && y2 <= y_min ==> x2 * bottom.den >= scaled_x(line, bottom)
                &&& dx * dy <= 0 && y2 >= y_min ==> x2 * bottom.den <= scaled_x(line, bottom)
                &&& (x1 < x_max <==> x1 * top.den < x_max * top.den)
                &&& (x1 == x_max <==> x1 * top.den == x_max * top.den)
                &&& (x1 < x_min <==> x1 * top.den < x_min * top.den)
                &&& (x1 == x_min <==> x1 * top.den == x_min * top.den)
                &&& (x2 < x_max <==> x2 * top.den < x_max * top.den)
                &&& (x2 == x_max <==> x2 * top.den == x_max * top.den)
                &&& (x2 < x_min <==> x2 * top.den < x_min * top.den)
                &&& (x2 == x_min <==> x2 * top.den == x_min * top.den)
                &&& x_min * top.den <= x_max * top.den
                &&& y_min * top.den <= y_max * top.den
            }
            &&& dx != 0 ==> {
                &&& right.den > 0 && right.den == left.den
                &&& scaled_x(line, right) == x_max * right.den
                &&& scaled_x(line, left) == x_min * left.den
                &&& dx * dy >= 0 ==> scaled_y(line, left) <= scaled_y(line, right)
                &&& dx * dy <= 0 ==> scaled_y(line, left) >= scaled_y(line, right)
                &&& dx * dy >= 0 && x1 <= x_max ==> y1 * right.den <= scaled_y(line, right)
                &&& dx * dy >= 0 && x1 >= x_max ==> y1 * right.den >= scaled_y(line, right)
                &&& dx * dy <= 0 && x1 <= x_max ==> y1 * right.den >= scaled_y(line, right)
                &&& dx * dy <= 0 && x1 >= x_max ==> y1 * right.den <= scaled_y(line, right)
                &&& dx * dy >= 0 && x2 <= x_max ==> y2 * right.den <= scaled_y(line, right)
                &&& dx * dy >= 0 && x2 >= x_max ==> y2 * right.den >= scaled_y(line, right)
                &&& dx * dy <= 0 && x2 <= x_max ==> y2 * right.den >= scaled_y(line, right)
                &&& dx * dy <= 0 && x2 >= x_max ==> y2 * right.den <= scaled_y(line, right)
                &&& dx * dy >= 0 && x1 <= x_min ==> y1 * left.den <= scaled_y(line, left)
                &&& dx * dy >= 0 && x1 >= x_min ==> y1 * left.den >= scaled_y(line, left)
                &&& dx * dy <= 0 && x1 <= x_min ==> y1 * left.den >= scaled_y(line, left)
                &&& dx * dy <= 0 && x1 >= x_min ==> y1 * left.den <= scaled_y(line, left)
                &&& dx * dy >= 0 && x2 <= x_min ==> y2 * left.den <= scaled_y(line, left)
                &&& dx * dy >= 0 && x2 >= x_min ==> y2 * left.den >= scaled_y(line, left)
                &&& dx * dy <= 0 && x2 <= x_min ==> y2 * left.den >= scaled_y(line, left)
                &&& dx * dy <= 0 && x2 >= x_min ==> y2 * left.den <= scaled_y(line, left)
                &&& (y1 < y_max <==> y1 * right.den < y_max * right.den)
                &&& (y1 == y_max <==> y1 * right.den == y_max * right.den)
                &&& (y1 < y_min <==> y1 * right.den < y_min * right.den)
                &&& (y1 == y_min <==> y1 * right.den == y_min * right.den)
                &&& (y2 < y_max <==> y2 * right.den < y_max * right.den)
                &&& (y2 == y_max <==> y2 * right.den == y_max * right.den)
                &&& (y2 < y_min <==> y2 * right.den < y_min * right.den)
                &&& (y2 == y_min <==> y2 * right.den == y_min * right.den)
                &&& y_min * right.den <= y_max * right.den
                &&& x_min * right.den <= x_max * right.den
            }
            &&& dx != 0 && dy != 0 ==> {
                &&& corner_relation(dx * dy, scaled_x(line, top) - x_max * top.den, scaled_y(line, right)
                    - y_max * right.den)
                &&& corner_relation(dx * dy, scaled_x(line, top) - x_min * top.den, scaled_y(line, left)
                    - y_max * left.den)
                &&& corner_relation(dx * dy, scaled_x(line, bottom) - x_max * bottom.den, scaled_y(
                    line,
                    right,
                ) - y_min * right.den)
                &&& corner_relation(dx * dy, scaled_x(line, bottom) - x_min * bottom.den, scaled_y(
                    line,
                    left,
                ) - y_min * left.den)
            }
        }),
{
    let dx = line.dx();
    let dy = line.dy();
    let x1 = line.first.x as int;
    let y1 = line.first.y as int;
    let x2 = line.last.x as int;
    let y2 = line.last.y as int;
    let x_min = rectangle.x_min() as int;
    let x_max = rectangle.x_max() as int;
    let y_min = rectangle.y_min() as int;
    let y_max = rectangle.y_max() as int;
    if dy != 0 {
        let den = top_position(line, rectangle).den;
        lemma_crossing_along(x1, y1, dx, dy, y_max, y_min);
        lemma_crossing_ends(x1, y1, dx, dy, y_max);
        lemma_crossing_ends(x1, y1, dx, dy, y_min);
        lemma_scaled_order(x1, x_max, den);
        lemma_scaled_order(x1, x_min, den);
        lemma_scaled_order(x2, x_max, den);
        lemma_scaled_order(x2, x_min, den);
        lemma_scaled_order(x_min, x_max, den);
        lemma_scaled_order(y_min, y_max, den);
    }
    if dx != 0 {
        let den = right_position(line, rectangle).den;
        lemma_crossing_along(y1, x1, dy, dx, x_max, x_min);
        lemma_crossing_ends(y1, x1, dy, dx, x_max);
        lemma_crossing_ends(y1, x1, dy, dx, x_min);
        lemma_scaled_order(y1, y_max, den);
        lemma_scaled_order(y1, y_min, den);
        lemma_scaled_order(y2, y_max, den);
        lemma_scaled_order(y2, y_min, den);
        lemma_scaled_order(y_min, y_max, den);
        lemma_scaled_order(x_min, x_max, den);
        assert(dy * dx == dx * dy) by (nonlinear_arith);
    }
    if dx != 0 && dy != 0 {
        lemma_corner(x1, y1, dx, dy, x_max, y_max);
        lemma_corner(x1, y1, dx, dy, x_min, y_max);
        lemma_corner(x1, y1, dx, dy, x_max, y_min);
        lemma_corner(x1, y1, dx, dy, x_min, y_min);
    }
}

/// How the excess of one crossing over a corner relates to the excess of
/// the other crossing over the same corner: opposite in sign on a rising
/// segment, equal in sign on a falling one.
pub open spec fn corner_relation(slope: int, along_x: int, along_y: int) -> bool {
    &&& (along_x == 0 <==> along_y == 0)
    &&& slope > 0 ==> (along_x > 0 <==> along_y < 0)
    &&& slope < 0 ==> (along_x > 0 <==> along_y > 0)
}

/// The scaled coordinate `a` of the point where the coordinate `b` reaches
/// `value`.
spec fn reached(a1: int, b1: int, da: int, db: int, value: int) -> int {
    a1 * position_den(db) + position_num(value, b1, db) * da
}

spec fn position_den(extent: int) -> int {
    if extent > 0 {
        extent
    } else {
        -extent
    }
}

spec fn position_num(value: int, start: int, extent: int) -> int {
    if extent > 0 {
        value - start
    } else {
        start - value
    }
}

proof fn lemma_crossing_along(a1: int, b1: int, da: int, db: int, high: int, low: int)
    by (nonlinear_arith)
    requires
        db != 0,
        low <= high,
    ensures
        b1 * position_den(db) + position_num(high, b1, db) * db == high * position_den(db),
        b1 * position_den(db) + position_num(low, b1, db) * db == low * position_den(db),
        da * db >= 0 ==> reached(a1, b1, da, db, low) <= reached(a1, b1, da, db, high),
        da * db <= 0 ==> reached(a1, b1, da, db, low) >= reached(a1, b1, da, db, high),
{
}

proof fn lemma_crossing_ends(a1: int, b1: int, da: int, db: int, value: int)
    by (nonlinear_arith)
    requires
        db != 0,
    ensures
        da * db >= 0 && b1 <= value ==> a1 * position_den(db) <= reached(a1, b1, da, db, value),
        da * db >= 0 && b1 >= value ==> a1 * position_den(db) >= reached(a1, b1, da, db, value),
        da * db <= 0 && b1 <= value ==> a1 * position_den(db) >= reached(a1, b1, da, db, value),
        da * db <= 0 && b1 >= value ==> a1 * position_den(db) <= reached(a1, b1, da, db, value),
        da * db >= 0 && b1 + db <= value ==> (a1 + da) * position_den(db) <= reached(a1, b1, da, db, value),
        da * db >= 0 && b1 + db >= value ==> (a1 + da) * position_den(db) >= reached(a1, b1, da, db, value),
        da * db <= 0 && b1 + db <= value ==> (a1 + da) * position_den(db) >= reached(a1, b1, da, db, value),
        da * db <= 0 && b1 + db >= value ==> (a1 + da) * position_den(db) <= reached(a1, b1, da, db, value),
{
}

proof fn lemma_corner(x1: int, y1: int, dx: int, dy: int, cx: int, cy: int)
    by (nonlinear_arith)
    requires
        dx != 0,
        dy != 0,
    ensures
        corner_relation(
            dx * dy,
            reached(x1, y1, dx, dy, cy) - cx * position_den(dy),
            reached(y1, x1, dy, dx, cx) - cy * position_den(dx),
        ),
{
}

/// Four replacements always settle a segment: after at most four, both
/// ends of the window lie in the rectangle or both lie beyond one common
/// edge.
pub proof fn lemma_four_replacements_settle(line: Line, rectangle: ClippingRectangle)
    requires
        rectangle.well_formed(),
    ensures
        settles_within(line, rectangle, (Parameter::zero(), Parameter::one()), 4),
{
    lemma_crossings(line, rectangle);
    lemma_at_ends(line, rectangle);
    assert(line.dx() != 0 && line.dy() != 0 ==> line.dx() * line.dy() > 0 || line.dx() * line.dy() < 0)
        by (nonlinear_arith);
    assert(line.dx() == 0 || line.dy() == 0 ==> line.dx() * line.dy() == 0) by (nonlinear_arith);
    reveal_with_fuel(settles_within, 5);
}

/// Whether the exact point at the position `t` is a point of the segment
/// that lies in the rectangle.
pub open spec fn visible_at(line: Line, rectangle: ClippingRectangle, t: Parameter) -> bool {
    t.on_segment() && inside_at(line, rectangle, t)
}

/// A coordinate that exceeds a bound at `p` and not at a later position `t`
/// falls along the segment, and reaches the bound at or before `t`.
proof fn lemma_enters_below(start: int, extent: int, bound: int, p: Parameter, t: Parameter)
    by (nonlinear_arith)
    requires
        p.den > 0,
        t.den > 0,
        p.le(t),
        start * p.den + p.num * extent > bound * p.den,
        start * t.den + t.num * extent <= bound * t.den,
    ensures
        extent < 0,
        position_of(bound, start, extent).le(t),
        position_of(bound, start, extent).den > 0,
{
}

/// A coordinate that falls short of a bound at `p` and not at a later
/// position `t` rises along the segment, and reaches the bound at or before
/// `t`.
proof fn lemma_enters_above(start: int, extent: int, bound: int, p: Parameter, t: Parameter)
    by (nonlinear_arith)
    requires
        p.den > 0,
        t.den > 0,
        p.le(t),
        start * p.den + p.num * extent < bound * p.den,
        start * t.den + t.num * extent >= bound * t.den,
    ensures
        extent > 0,
        position_of(bound, start, extent).le(t),
        position_of(bound, start, extent).den > 0,
{
}

/// A coordinate that exceeds a bound at `p` and not at an earlier position
/// `t` rises along the segment, and reaches the bound at or after `t`.
proof fn lemma_leaves_above(start: int, extent: int, bound: int, p: Parameter, t: Parameter)
    by (nonlinear_arith)
    requires
        p.den > 0,
        t.den > 0,
        t.le(p),
        start * p.den + p.num * extent > bound * p.den,
        start * t.den + t.num * extent <= bound * t.den,
    ensures
        extent > 0,
        t.le(position_of(bound, start, extent)),
        position_of(bound, start, extent).den > 0,
{
}

/// A coordinate that falls short of a bound at `p` and not at an earlier
/// position `t` falls along the segment, and reaches the bound at or after
/// `t`.
proof fn lemma_leaves_below(start: int, extent: int, bound: int, p: Parameter, t: Parameter)
    by (nonlinear_arith)
    requires
        p.den > 0,
        t.den > 0,
        t.le(p),
        start * p.den + p.num * extent < bound * p.den,
        start * t.den + t.num * extent >= bound * t.den,
    ensures
        extent < 0,
        t.le(position_of(bound, start, extent)),
        position_of(bound, start, extent).den > 0,
{
}

/// A coordinate that exceeds a bound at two positions exceeds it at every
/// position between the two.
proof fn lemma_exceeds_between(start: int, extent: int, bound: int, p: Parameter, q: Parameter, t: Parameter)
    requires
        p.den > 0,
        q.den > 0,
        t.den > 0,
        p.le(t),
        t.le(q),
        start * p.den + p.num * extent > bound * p.den,
        start * q.den + q.num * extent > bound * q.den,
    ensures
        start * t.den + t.num * extent > bound * t.den,
{
    if extent >= 0 {
        assert(start * t.den + t.num * extent > bound * t.den) by (nonlinear_arith)
            requires
                p.den > 0,
                t.den > 0,
                p.num * t.den <= t.num * p.den,
                extent >= 0,
                start * p.den + p.num * extent > bound * p.den,
        ;
    } else {
        assert(start * t.den + t.num * extent > bound * t.den) by (nonlinear_arith)
            requires
                q.den > 0,
                t.den > 0,
                t.num * q.den <= q.num * t.den,
                extent < 0,
                start * q.den + q.num * extent > bound * q.den,
        ;
    }
}

/// A coordinate that falls short of a bound at two positions falls short of
/// it at every position between the two.
proof fn lemma_falls_short_between(
    start: int,
    extent: int,
    bound: int,
    p: Parameter,
    q: Parameter,
    t: Parameter,
)
    requires
        p.den > 0,
        q.den > 0,
        t.den > 0,
        p.le(t),
        t.le(q),
        start * p.den + p.num * extent < bound * p.den,
        start * q.den + q.num * extent < bound * q.den,
    ensures
        start * t.den + t.num * extent < bound * t.den,
{
    if extent <= 0 {
        assert(start * t.den + t.num * extent < bound * t.den) by (nonlinear_arith)
            requires
                p.den > 0,
                t.den > 0,
                p.num * t.den <= t.num * p.den,
                extent <= 0,
                start * p.den + p.num * extent < bound * p.den,
        ;
    } else {
        assert(start * t.den + t.num * extent < bound * t.den) by (nonlinear_arith)
            requires
                q.den > 0,
                t.den > 0,
                t.num * q.den <= q.num * t.den,
                extent > 0,
                start * q.den + q.num * extent < bound * q.den,
        ;
    }
}

/// No point between two ends that lie beyond one common edge lies in the
/// rectangle.
proof fn lemma_beyond_hides(line: Line, rectangle: ClippingRectangle, window: (Parameter, Parameter), t: Parameter)
    requires
        window.0.den > 0,
        window.1.den > 0,
        t.den > 0,
        window.0.le(t),
        t.le(window.1),
        beyond_one_edge(line, rectangle, window),
    ensures
        !inside_at(line, rectangle, t),
{
    let x1 = line.first.x as int;
    let y1 = line.first.y as int;
    if above_at(line, rectangle, window.0) && above_at(line, rectangle, window.1) {
        lemma_exceeds_between(y1, line.dy(), rectangle.y_max() as int, window.0, window.1, t);
    } else if below_at(line, rectangle, window.0) && below_at(line, rectangle, window.1) {
        lemma_falls_short_between(y1, line.dy(), rectangle.y_min() as int, window.0, window.1, t);
    } else if right_at(line, rectangle, window.0) && right_at(line, rectangle, window.1) {
        lemma_exceeds_between(x1, line.dx(), rectangle.x_max() as int, window.0, window.1, t);
    } else {
        lemma_falls_short_between(x1, line.dx(), rectangle.x_min() as int, window.0, window.1, t);
    }
}

/// A replacement cuts no point of the segment off that lies in the
/// rectangle.
proof fn lemma_replaced_keeps(line: Line, rectangle: ClippingRectangle, window: (Parameter, Parameter), t: Parameter)
    requires
        rectangle.well_formed(),
        window.0.den > 0,
        window.1.den > 0,
        !accepted(line, rectangle, window),
        t.den > 0,
        inside_at(line, rectangle, t),
        window.0.le(t),
        t.le(window.1),
    ensures
        replaced(line, rectangle, window).0.le(t),
        t.le(replaced(line, rectangle, window).1),
        replaced(line, rectangle, window).0.den > 0,
        replaced(line, rectangle, window).1.den > 0,
{
    let x1 = line.first.x as int;
    let y1 = line.first.y as int;
    if !inside_at(line, rectangle, window.0) {
        let p = window.0;
        if above_at(line, rectangle, p) {
            lemma_enters_below(y1, line.dy(), rectangle.y_max() as int, p, t);
        } else if below_at(line, rectangle, p) {
            lemma_enters_above(y1, line.dy(), rectangle.y_min() as int, p, t);
        } else if right_at(line, rectangle, p) {
            lemma_enters_below(x1, line.dx(), rectangle.x_max() as int, p, t);
        } else {
            lemma_enters_above(x1, line.dx(), rectangle.x_min() as int, p, t);
        }
    } else {
        let p = window.1;
        if above_at(line, rectangle, p) {
            lemma_leaves_above(y1, line.dy(), rectangle.y_max() as int, p, t);
        } else if below_at(line, rectangle, p) {
            lemma_leaves_below(y1, line.dy(), rectangle.y_min() as int, p, t);
        } else if right_at(line, rectangle, p) {
            lemma_leaves_above(x1, line.dx(), rectangle.x_max() as int, p, t);
        } else {
            lemma_leaves_below(x1, line.dx(), rectangle.x_min() as int, p, t);
        }
    }
}

proof fn lemma_settled_visible(line: Line, rectangle: ClippingRectangle, window: (Parameter, Parameter), rounds: nat)
    requires
        rectangle.well_formed(),
        window.0.on_segment(),
        window.1.on_segment(),
        settles_within(line, rectangle, window, rounds),
        forall|t: Parameter| #[trigger]
            visible_at(line, rectangle, t) ==> window.0.le(t) && t.le(window.1),
    ensures
        match settled(line, rectangle, window, rounds) {
            Some(part) => {
                &&& visible_at(line, rectangle, part.0)
                &&& visible_at(line, rectangle, part.1)
                &&& forall|t: Parameter| #[trigger]
                    visible_at(line, rectangle, t) ==> part.0.le(t) && t.le(part.1)
            },
            None => forall|t: Parameter| !#[trigger] visible_at(line, rectangle, t),
        },
    decreases rounds,
{
    if accepted(line, rectangle, window) {
    } else if beyond_one_edge(line, rectangle, window) {
        assert forall|t: Parameter| !#[trigger] visible_at(line, rectangle, t) by {
            if visible_at(line, rectangle, t) {
                lemma_beyond_hides(line, rectangle, window, t);
            }
        }
    } else {
        lemma_replaced(line, rectangle, window);
        let next = replaced(line, rectangle, window);
        assert forall|t: Parameter| #[trigger] visible_at(line, rectangle, t) implies next.0.le(t) && t.le(
            next.1,
        ) by {
            lemma_replaced_keeps(line, rectangle, window, t);
        }
        lemma_settled_visible(line, rectangle, next, (rounds - 1) as nat);
    }
}

/// What clipping leaves is the whole visible part of the segment.  Where a
/// window is left, its two ends are points of the segment in the rectangle
/// and every point of the segment in the rectangle lies between them: the
/// ends are the first and the last visible point.  Nothing is left exactly
/// where no point of the segment lies in the rectangle.
pub proof fn lemma_cohen_sutherland_visible(line: Line, rectangle: ClippingRectangle)
    requires
        rectangle.well_formed(),
    ensures
        match visible_part(line, rectangle) {
            Some(part) => {
                &&& visible_at(line, rectangle, part.0)
                &&& visible_at(line, rectangle, part.1)
                &&& forall|t: Parameter| #[trigger]
                    visible_at(line, rectangle, t) ==> part.0.le(t) && t.le(part.1)
                &&& cohen_sutherland(line, rectangle) == Some(
                    Line { first: point_at(line, part.0), last: point_at(line, part.1) },
                )
            },
            None => {
                &&& forall|t: Parameter| !#[trigger] visible_at(line, rectangle, t)
                &&& cohen_sutherland(line, rectangle).is_none()
            },
        },
{
    lemma_four_replacements_settle(line, rectangle);
    lemma_settled_visible(line, rectangle, (Parameter::zero(), Parameter::one()), 4);
}

/// The lattice point nearest to an exact point of the segment that lies in
/// the rectangle lies in the rectangle.
pub proof fn lemma_rounded_inside(line: Line, rectangle: ClippingRectangle, t: Parameter)
    requires
        visible_at(line, rectangle, t),
    ensures
        rectangle.contains(point_at(line, t)),
{
    let x1 = line.first.x as int;
    let y1 = line.first.y as int;
    assert((rectangle.x_min() - x1) * t.den <= line.dx() * t.num <= (rectangle.x_max() - x1) * t.den)
        by (nonlinear_arith)
        requires
            rectangle.x_min() * t.den <= x1 * t.den + t.num * line.dx() <= rectangle.x_max() * t.den,
    ;
    assert((rectangle.y_min() - y1) * t.den <= line.dy() * t.num <= (rectangle.y_max() - y1) * t.den)
        by (nonlinear_arith)
        requires
            rectangle.y_min() * t.den <= y1 * t.den + t.num * line.dy() <= rectangle.y_max() * t.den,
    ;
    lemma_round_div_between(line.dx() * t.num, t.den, rectangle.x_min() - x1, rectangle.x_max() - x1);
    lemma_round_div_between(line.dy() * t.num, t.den, rectangle.y_min() - y1, rectangle.y_max() - y1);
}

/// At the positions 0 and 1 the exact point is the first and the last end
/// point of the segment.
pub proof fn lemma_at_ends(line: Line, rectangle: ClippingRectangle)
    ensures
        inside_at(line, rectangle, Parameter::zero()) == rectangle.contains(line.first),
        inside_at(line, rectangle, Parameter::one()) == rectangle.contains(line.last),
        above_at(line, rectangle, Parameter::zero()) == (line.first.y > rectangle.y_max()),
        below_at(line, rectangle, Parameter::zero()) == (line.first.y < rectangle.y_min()),
        right_at(line, rectangle, Parameter::zero()) == (line.first.x > rectangle.x_max()),
        left_at(line, rectangle, Parameter::zero()) == (line.first.x < rectangle.x_min()),
        above_at(line, rectangle, Parameter::one()) == (line.last.y > rectangle.y_max()),
        below_at(line, rectangle, Parameter::one()) == (line.last.y < rectangle.y_min()),
        right_at(line, rectangle, Parameter::one()) == (line.last.x > rectangle.x_max()),
        left_at(line, rectangle, Parameter::one()) == (line.last.x < rectangle.x_min()),
{
    let zero = Parameter::zero();
    let one = Parameter::one();
    let x1 = line.first.x as int;
    let y1 = line.first.y as int;
    let dx = line.dx();
    let dy = line.dy();
    assert(x1 * zero.den + zero.num * dx == x1 && y1 * zero.den + zero.num * dy == y1)
        by (nonlinear_arith)
        requires
            zero.den == 1,
            zero.num == 0,
    ;
    assert(x1 * one.den + one.num * dx == x1 + dx && y1 * one.den + one.num * dy == y1 + dy)
        by (nonlinear_arith)
        requires
            one.den == 1,
            one.num == 1,
    ;
    let x_min = rectangle.x_min() as int;
    let x_max = rectangle.x_max() as int;
    let y_min = rectangle.y_min() as int;
    let y_max = rectangle.y_max() as int;
    assert(x_min * zero.den == x_min && x_max * zero.den == x_max && y_min * zero.den == y_min && y_max
        * zero.den == y_max) by (nonlinear_arith)
        requires
            zero.den == 1,
    ;
    assert(x_min * one.den == x_min && x_max * one.den == x_max && y_min * one.den == y_min && y_max
        * one.den == y_max) by (nonlinear_arith)
        requires
            one.den == 1,
    ;
}

/// A segment with both end points in the rectangle is returned as it is.
pub proof fn lemma_cohen_sutherland_inside(line: Line, rectangle: ClippingRectangle)
    requires
        rectangle.well_formed(),
        rectangle.contains(line.first),
        rectangle.contains(line.last),
    ensures
        cohen_sutherland(line, rectangle) == Some(line),
{
    lemma_round_div_multiple(0, 1);
    lemma_round_div_multiple(line.dx(), 1);
    lemma_round_div_multiple(line.dy(), 1);
    assert(line.dx() * 0 == 0 * 1) by (nonlinear_arith);
    assert(line.dy() * 0 == 0 * 1) by (nonlinear_arith);
    let window = (Parameter::zero(), Parameter::one());
    lemma_at_ends(line, rectangle);
    assert(inside_at(line, rectangle, window.0));
    assert(inside_at(line, rectangle, window.1));
    assert(visible_part(line, rectangle) == Some(window));
    assert(point_at(line, window.0) == line.first);
    assert(point_at(line, window.1) == line.last);
}

/// A segment whose two end points are beyond one common edge of the
/// rectangle leaves nothing.
pub proof fn lemma_cohen_sutherland_beyond_one_edge(line: Line, rectangle: ClippingRectangle)
    requires
        rectangle.well_formed(),
        ({
            ||| (line.first.y > rectangle.y_max() && line.last.y > rectangle.y_max())
            ||| (line.first.y < rectangle.y_min() && line.last.y < rectangle.y_min())
            ||| (line.first.x > rectangle.x_max() && line.last.x > rectangle.x_max())
            ||| (line.first.x < rectangle.x_min() && line.last.x < rectangle.x_min())
        }),
    ensures
        cohen_sutherland(line, rectangle).is_none(),
{
    lemma_at_ends(line, rectangle);
}

/// What is left of a segment lies in the rectangle, and clipping it again
/// returns it unchanged.
pub proof fn lemma_cohen_sutherland_twice(line: Line, rectangle: ClippingRectangle)
    requires
        rectangle.well_formed(),
    ensures
        cohen_sutherland(line, rectangle) matches Some(visible) ==> {
            &&& rectangle.contains(visible.first)
            &&& rectangle.contains(visible.last)
            &&& cohen_sutherland(visible, rectangle) == Some(visible)
        },
{
    lemma_cohen_sutherland_visible(line, rectangle);
    if let Some(part) = visible_part(line, rectangle) {
        lemma_rounded_inside(line, rectangle, part.0);
        lemma_rounded_inside(line, rectangle, part.1);
        let visible = Line { first: point_at(line, part.0), last: point_at(line, part.1) };
        lemma_cohen_sutherland_inside(visible, rectangle);
    }
}

/// Of two positions on the segment, the lattice point of the later one
/// lies further along the segment on each axis, or at the same place.
pub proof fn lemma_points_in_order(line: Line, s: Parameter, t: Parameter)
    requires
        s.on_segment(),
        t.on_segment(),
        s.le(t),
    ensures
        line.dx() >= 0 ==> point_at(line, s).x <= point_at(line, t).x,
        line.dx() <= 0 ==> point_at(line, s).x >= point_at(line, t).x,
        line.dy() >= 0 ==> point_at(line, s).y <= point_at(line, t).y,
        line.dy() <= 0 ==> point_at(line, s).y >= point_at(line, t).y,
{
    lemma_along(line.dx(), s, t);
    lemma_along(line.dy(), s, t);
}

/// The rounded parts of one extent at two positions in order.
proof fn lemma_along(extent: int, s: Parameter, t: Parameter)
    requires
        s.on_segment(),
        t.on_segment(),
        s.le(t),
    ensures
        extent >= 0 ==> 0 <= round_div(extent * s.num, s.den) <= round_div(extent * t.num, t.den) <= extent,
        extent <= 0 ==> 0 >= round_div(extent * s.num, s.den) >= round_div(extent * t.num, t.den) >= extent,
{
    let a = extent * s.num;
    let c = extent * t.num;
    assert(a * t.den == extent * (s.num * t.den) && c * s.den == extent * (t.num * s.den))
        by (nonlinear_arith)
        requires
            a == extent * s.num,
            c == extent * t.num,
    ;
    if extent >= 0 {
        assert(extent * (s.num * t.den) <= extent * (t.num * s.den)) by (nonlinear_arith)
            requires
                extent >= 0,
                s.num * t.den <= t.num * s.den,
        ;
        lemma_round_div_ordered(a, s.den, c, t.den);
        assert(0 * s.den <= a && c <= extent * t.den) by (nonlinear_arith)
            requires
                a == extent * s.num,
                c == extent * t.num,
                extent >= 0,
                0 <= s.num,
                t.num <= t.den,
        ;
        lemma_round_div_monotone(0 * s.den, a, s.den);
        lemma_round_div_multiple(0, s.den);
        lemma_round_div_monotone(c, extent * t.den, t.den);
        lemma_round_div_multiple(extent, t.den);
    }
    if extent <= 0 {
        assert(extent * (s.num * t.den) >= extent * (t.num * s.den)) by (nonlinear_arith)
            requires
                extent <= 0,
                s.num * t.den <= t.num * s.den,
        ;
        lemma_round_div_ordered(c, t.den, a, s.den);
        assert(a <= 0 * s.den && extent * t.den <= c) by (nonlinear_arith)
            requires
                a == extent * s.num,
                c == extent * t.num,
                extent <= 0,
                0 <= s.num,
                t.num <= t.den,
        ;
        lemma_round_div_monotone(a, 0 * s.den, s.den);
        lemma_round_div_multiple(0, s.den);
        lemma_round_div_monotone(extent * t.den, c, t.den);
        lemma_round_div_multiple(extent, t.den);
    }
}

/// Clipping keeps the direction of the segment: on each axis the clipped
/// segment runs the way the segment runs, or stands still.
pub proof fn lemma_cohen_sutherland_keeps_direction(line: Line, rectangle: ClippingRectangle)
    requires
        rectangle.well_formed(),
    ensures
        match cohen_sutherland(line, rectangle) {
            Some(clipped) => {
                &&& line.dx() >= 0 ==> clipped.dx() >= 0
                &&& line.dx() <= 0 ==> clipped.dx() <= 0
                &&& line.dy() >= 0 ==> clipped.dy() >= 0
                &&& line.dy() <= 0 ==> clipped.dy() <= 0
            },
            None => true,
        },
{
    lemma_cohen_sutherland_visible(line, rectangle);
    match visible_part(line, rectangle) {
        Some(part) => {
            assert(part.0.le(part.1));
            lemma_points_in_order(line, part.0, part.1);
        },
        None => {},
    }
}

} // verus!
