//! Where the corners of a clipped polygon lie.  Every corner of what is
//! left lies within every edge of the clip polygon, before it is rounded,
//! and within the convex hull of the polygon; it rounds to a lattice point;
//! and it is a vertex of the polygon or lies on the line of a clip edge.  A
//! polygon is left only where some point of its hull lies strictly inside
//! every edge of the clip polygon.

use vstd::prelude::*;
use crate::arith::{
    abs, lemma_product_bound, lemma_round_div_between, lemma_round_div_bounds, lemma_round_div_shift,
    round_div,
};
use crate::clipping::{
    half_plane_clip, is_inside, meeting_position, polygon_edge, scaled_x, scaled_y, side,
    sutherland_hodgman,
};
use crate::corners::{
    clipped_by, clipped_corners, corner_output, following, half_plane_corners, lattice_corner,
    lattice_points, meeting_corner, never_meets, polygon_corners, Corner,
};
use crate::line::Line;
use crate::point2d::Point2d;
use crate::polygon::PolygonView;
use crate::polygon_clip_facts::{
    lemma_clipped_by_stays_none, lemma_half_plane_corners_none, lemma_lattice_corner,
    lemma_polygon_corners_inside, none_inside,
};

verus! {

/// The x coordinate of the exact point of a corner, scaled by the
/// denominator of its position.
pub open spec fn corner_x(c: Corner) -> int {
    scaled_x(c.support, c.position())
}

/// The y coordinate of the exact point of a corner, scaled by the
/// denominator of its position.
pub open spec fn corner_y(c: Corner) -> int {
    scaled_y(c.support, c.position())
}

/// The side of `edge` on which the point `(x / w, y / w)` lies, scaled by
/// `w`.
pub open spec fn form(edge: Line, x: int, y: int, w: int) -> int {
    edge.dx() * (y - edge.first.y * w) - edge.dy() * (x - edge.first.x * w)
}

/// Whether the corner lies on the line through `line`; where `line` has no
/// length, whether the corner is its one point.
pub open spec fn on_support(line: Line, c: Corner) -> bool {
    &&& c.side_of(line) == 0
    &&& line.first == line.last ==> corner_x(c) == line.first.x * c.den && corner_y(c) == line.first.y
        * c.den
}

/// Whether every corner lies on the line along which the polygon edge to
/// the following corner runs.
pub open spec fn consistent(corners: Seq<Corner>) -> bool {
    forall|i: int|
        0 <= i < corners.len() ==> (#[trigger] corners[i]).den > 0 && on_support(
            following(corners, i).support,
            corners[i],
        )
}

/// Whether every corner lies on the inner side of the edge, or on its line.
pub open spec fn all_within(corners: Seq<Corner>, edge: Line) -> bool {
    forall|i: int| 0 <= i < corners.len() ==> (#[trigger] corners[i]).side_of(edge) <= 0
}

/// A factor spread over a combination of two products.
proof fn lemma_spread(a: int, m: int, p: int, n: int, q: int)
    ensures
        a * (m * p + n * q) == m * (a * p) + n * (a * q),
{
    assert(a * (m * p + n * q) == m * (a * p) + n * (a * q)) by (nonlinear_arith);
}

/// A combination shifted by a multiple of the combined weights.
proof fn lemma_shifted(m: int, p: int, n: int, q: int, f: int, wp: int, wq: int)
    ensures
        (m * p + n * q) - f * (m * wp + n * wq) == m * (p - f * wp) + n * (q - f * wq),
{
    lemma_spread(f, m, wp, n, wq);
    assert(m * (p - f * wp) == m * p - m * (f * wp)) by (nonlinear_arith);
    assert(n * (q - f * wq) == n * q - n * (f * wq)) by (nonlinear_arith);
}

/// The point at the position `num / den` between `a` and `b`, scaled by
/// `den`, as a combination of the two.
proof fn lemma_blend(den: int, num: int, a: int, b: int)
    ensures
        (den - num) * a + num * b == a * den + num * (b - a),
{
    assert((den - num) * a + num * b == a * den + num * (b - a)) by (nonlinear_arith);
}

/// The side of a combination of two points is the combination of their
/// sides.
proof fn lemma_form_combination(
    edge: Line,
    alpha: int,
    bx: int,
    by: int,
    bw: int,
    beta: int,
    ex: int,
    ey: int,
    ew: int,
)
    ensures
        form(edge, alpha * bx + beta * ex, alpha * by + beta * ey, alpha * bw + beta * ew) == alpha * form(
            edge,
            bx,
            by,
            bw,
        ) + beta * form(edge, ex, ey, ew),
{
    let dx = edge.dx();
    let dy = edge.dy();
    let fx = edge.first.x as int;
    let fy = edge.first.y as int;
    let yb = by - fy * bw;
    let ye = ey - fy * ew;
    let xb = bx - fx * bw;
    let xe = ex - fx * ew;
    lemma_shifted(alpha, by, beta, ey, fy, bw, ew);
    lemma_shifted(alpha, bx, beta, ex, fx, bw, ew);
    lemma_spread(dx, alpha, yb, beta, ye);
    lemma_spread(dy, alpha, xb, beta, xe);
    assert(alpha * (dx * yb - dy * xb) == alpha * (dx * yb) - alpha * (dy * xb)) by (nonlinear_arith);
    assert(beta * (dx * ye - dy * xe) == beta * (dx * ye) - beta * (dy * xe)) by (nonlinear_arith);
}

/// The side of a lattice point is the side of the point with the weight 1.
proof fn lemma_side_is_form(edge: Line, p: Point2d)
    ensures
        side(edge, p) == form(edge, p.x as int, p.y as int, 1),
{
}

/// The side of a corner is the side of its scaled point.
proof fn lemma_side_form(c: Corner, edge: Line)
    ensures
        c.side_of(edge) == form(edge, corner_x(c), corner_y(c), c.den as int),
{
    let s = c.support;
    let num = c.num as int;
    let den = c.den as int;
    let ax = s.first.x as int;
    let ay = s.first.y as int;
    let bx = s.last.x as int;
    let by = s.last.y as int;
    lemma_side_is_form(edge, s.first);
    lemma_side_is_form(edge, s.last);
    lemma_form_combination(edge, den - num, ax, ay, 1, num, bx, by, 1);
    lemma_blend(den, num, ax, bx);
    lemma_blend(den, num, ay, by);
    lemma_blend(den, num, 1, 1);
    lemma_blend(den, num, side(edge, s.first), side(edge, s.last));
    assert(num * (1 - 1) == 0);
    assert(1 * den == den);
}

/// A corner lies on its own support.
proof fn lemma_own_support(c: Corner)
    ensures
        on_support(c.support, c),
{
    let s = c.support;
    lemma_side_form(c, s);
    let num = c.num as int;
    let den = c.den as int;
    let dx = s.dx();
    let dy = s.dy();
    assert(dx * ((s.first.y * den + num * dy) - s.first.y * den) - dy * ((s.first.x * den + num * dx)
        - s.first.x * den) == 0) by (nonlinear_arith);
    if s.first == s.last {
        assert(num * dx == 0 && num * dy == 0) by (nonlinear_arith)
            requires
                dx == 0,
                dy == 0,
        ;
    }
}

/// The side of an edge is at most twice the square of the width of the
/// lattice.
proof fn lemma_side_bound(edge: Line, p: Point2d)
    ensures
        -0x1_ffff_fffc_0000_0002 <= side(edge, p) <= 0x1_ffff_fffc_0000_0002,
{
    lemma_product_bound(edge.dx(), 0xffff_ffff, p.y - edge.first.y, 0xffff_ffff);
    lemma_product_bound(edge.dy(), 0xffff_ffff, p.x - edge.first.x, 0xffff_ffff);
}

/// How the sides of the two ends of one segment differ, and what two lines
/// that meet are not.
proof fn lemma_meets(line: Line, other: Line)
    ensures
        side(other, line.last) - side(other, line.first) == other.dx() * line.dy() - other.dy() * line.dx(),
        never_meets(line, other) == never_meets(other, line),
        !never_meets(line, other) ==> line.first != line.last && other.first != other.last,
{
    let ox = other.dx();
    let oy = other.dy();
    let fx = other.first.x as int;
    let fy = other.first.y as int;
    let ax = line.first.x as int;
    let ay = line.first.y as int;
    let bx = line.last.x as int;
    let by = line.last.y as int;
    assert((ox * (by - fy) - oy * (bx - fx)) - (ox * (ay - fy) - oy * (ax - fx)) == ox * (by - ay) - oy * (bx
        - ax)) by (nonlinear_arith);
    let lx = line.dx();
    let ly = line.dy();
    let cx = other.first.x as int;
    let cy = other.first.y as int;
    let dx2 = other.last.x as int;
    let dy2 = other.last.y as int;
    assert((lx * (dy2 - ay) - ly * (dx2 - ax)) - (lx * (cy - ay) - ly * (cx - ax)) == lx * (dy2 - cy) - ly * (
    dx2 - cx)) by (nonlinear_arith);
    assert(ox * ly - oy * lx == -(lx * oy - ly * ox)) by (nonlinear_arith);
    if line.first == line.last {
        assert(ox * 0 - oy * 0 == 0);
    }
    if other.first == other.last {
        assert(0 * ly - 0 * lx == 0);
    }
}

/// The point in which two lines meet lies on both of them.
proof fn lemma_meeting_corner(support: Line, other: Line)
    requires
        !never_meets(support, other),
    ensures
        meeting_corner(support, other).den > 0,
        meeting_corner(support, other).support == support,
        meeting_corner(support, other).side_of(other) == 0,
        on_support(other, meeting_corner(support, other)),
        on_support(support, meeting_corner(support, other)),
        support.first != support.last,
        other.first != other.last,
{
    let x = meeting_corner(support, other);
    let t = meeting_position(support, other);
    let a = side(other, support.first);
    let b = side(other, support.last);
    lemma_side_bound(other, support.first);
    lemma_side_bound(other, support.last);
    lemma_meets(support, other);
    assert(x.num == t.num && x.den == t.den);
    assert(a * t.den + t.num * (b - a) == 0) by (nonlinear_arith)
        requires
            (t.num == a && t.den == a - b) || (t.num == -a && t.den == b - a),
    ;
    lemma_own_support(x);
}

/// Two lines that meet have one point in common, and no direction.
proof fn lemma_no_common_direction(a1: int, b1: int, a2: int, b2: int, x: int, y: int)
    requires
        a1 * y == b1 * x,
        a2 * y == b2 * x,
        a1 * b2 - b1 * a2 != 0,
    ensures
        x == 0,
        y == 0,
{
    let d = a1 * b2 - b1 * a2;
    assert(d * y == b2 * (a1 * y) - b1 * (a2 * y)) by (nonlinear_arith)
        requires
            d == a1 * b2 - b1 * a2,
    ;
    assert(b2 * (b1 * x) == b1 * (b2 * x)) by (nonlinear_arith);
    assert(d * y == 0);
    assert(d * x == a2 * (b1 * x) - a1 * (b2 * x) + 2 * d * x) by (nonlinear_arith)
        requires
            d == a1 * b2 - b1 * a2,
    ;
    assert(a2 * (a1 * y) == a1 * (a2 * y)) by (nonlinear_arith);
    assert(d * x == 0) by (nonlinear_arith)
        requires
            d * x == a2 * (b1 * x) - a1 * (b2 * x) + 2 * d * x,
            a2 * (a1 * y) == a1 * (a2 * y),
            a1 * y == b1 * x,
            a2 * y == b2 * x,
    ;
    assert(x == 0 && y == 0) by (nonlinear_arith)
        requires
            d * x == 0,
            d * y == 0,
            d != 0,
    ;
}

/// Two points that both lie on two lines which meet are the same point.
proof fn lemma_one_meeting_point(s: Line, k: Line, x: int, y: int, w: int, x2: int, y2: int, w2: int)
    requires
        form(s, x, y, w) == 0,
        form(k, x, y, w) == 0,
        form(s, x2, y2, w2) == 0,
        form(k, x2, y2, w2) == 0,
        s.dx() * k.dy() - s.dy() * k.dx() != 0,
    ensures
        x * w2 == x2 * w,
        y * w2 == y2 * w,
{
    let qx = w2 * x + (-w) * x2;
    let qy = w2 * y + (-w) * y2;
    let qw = w2 * w + (-w) * w2;
    lemma_form_combination(s, w2, x, y, w, -w, x2, y2, w2);
    lemma_form_combination(k, w2, x, y, w, -w, x2, y2, w2);
    assert(qw == 0) by (nonlinear_arith)
        requires
            qw == w2 * w + (-w) * w2,
    ;
    assert(w2 * 0 + (-w) * 0 == 0);
    assert(form(s, qx, qy, 0) == 0);
    assert(form(k, qx, qy, 0) == 0);
    assert(s.first.y * 0 == 0 && s.first.x * 0 == 0 && k.first.y * 0 == 0 && k.first.x * 0 == 0);
    lemma_no_common_direction(s.dx(), s.dy(), k.dx(), k.dy(), qx, qy);
    assert(x * w2 == x2 * w) by (nonlinear_arith)
        requires
            w2 * x + (-w) * x2 == 0,
    ;
    assert(y * w2 == y2 * w) by (nonlinear_arith)
        requires
            w2 * y + (-w) * y2 == 0,
    ;
}

/// A direction along one of two lines that never meet is a direction along
/// the other.
proof fn lemma_common_direction(a1: int, b1: int, a2: int, b2: int, u: int, v: int)
    requires
        a1 * v == b1 * u,
        a2 * b1 == b2 * a1,
        a1 != 0 || b1 != 0,
    ensures
        a2 * v == b2 * u,
{
    let e = a2 * v - b2 * u;
    assert(a1 * e == a2 * (a1 * v) - (b2 * a1) * u) by (nonlinear_arith)
        requires
            e == a2 * v - b2 * u,
    ;
    assert(a2 * (b1 * u) == (a2 * b1) * u) by (nonlinear_arith);
    assert(a1 * e == 0);
    assert(b1 * e == (a2 * b1) * v - b2 * (b1 * u)) by (nonlinear_arith)
        requires
            e == a2 * v - b2 * u,
    ;
    assert((b2 * a1) * v == b2 * (a1 * v)) by (nonlinear_arith);
    assert(b1 * e == 0);
    assert(e == 0) by (nonlinear_arith)
        requires
            a1 * e == 0,
            b1 * e == 0,
            a1 != 0 || b1 != 0,
    ;
}

/// On a line that never meets another, every point lies on the same side of
/// the other line.
proof fn lemma_parallel_side(s: Line, k: Line, c: Corner)
    requires
        on_support(s, c),
        never_meets(s, k),
    ensures
        c.side_of(k) == side(k, s.first) * c.den,
{
    lemma_side_form(c, k);
    lemma_side_form(c, s);
    lemma_meets(s, k);
    lemma_side_is_form(k, s.first);
    lemma_side_is_form(s, s.first);
    let x = corner_x(c);
    let y = corner_y(c);
    let w = c.den as int;
    let p1 = s.first.x as int;
    let q1 = s.first.y as int;
    // the way from the first end of the line to the corner
    let u = 1 * x + (-w) * p1;
    let v = 1 * y + (-w) * q1;
    lemma_form_combination(k, 1, x, y, w, -w, p1, q1, 1);
    lemma_form_combination(s, 1, x, y, w, -w, p1, q1, 1);
    assert(1 * w + (-w) * 1 == 0);
    assert(s.first.y * 0 == 0 && s.first.x * 0 == 0 && k.first.y * 0 == 0 && k.first.x * 0 == 0);
    assert(side(s, s.first) == 0) by {
        assert(s.dx() * 0 - s.dy() * 0 == 0);
    }
    assert((-w) * 0 == 0);
    assert(form(s, u, v, 0) == 0);
    assert(form(k, u, v, 0) == form(k, x, y, w) + (-w) * side(k, s.first));
    assert((-w) * side(k, s.first) == -(side(k, s.first) * w)) by (nonlinear_arith);
    if s.first == s.last {
        assert((-w) * p1 == -(p1 * w) && (-w) * q1 == -(q1 * w)) by (nonlinear_arith);
        assert(u == 0 && v == 0);
        assert(k.dx() * 0 - k.dy() * 0 == 0);
    } else {
        lemma_common_direction(s.dx(), s.dy(), k.dx(), k.dy(), u, v);
    }
}

/// An edge whose two ends do not lie on the same side of a clipping edge
/// runs along a line that meets the line of the clipping edge.
proof fn lemma_crossing_exists(begin: Corner, end: Corner, clipping_edge: Line)
    requires
        begin.den > 0,
        end.den > 0,
        on_support(end.support, begin),
        begin.inside(clipping_edge) != end.inside(clipping_edge),
    ensures
        !never_meets(end.support, clipping_edge),
        !never_meets(clipping_edge, end.support),
{
    lemma_meets(end.support, clipping_edge);
    if never_meets(end.support, clipping_edge) {
        lemma_own_support(end);
        lemma_parallel_side(end.support, clipping_edge, begin);
        lemma_parallel_side(end.support, clipping_edge, end);
        let s0 = side(clipping_edge, end.support.first);
        assert((s0 * begin.den < 0) == (s0 < 0) && (s0 * end.den < 0) == (s0 < 0)) by (nonlinear_arith)
            requires
                begin.den > 0,
                end.den > 0,
        ;
    }
}

/// Where an edge crosses a clipping edge, the crossing lies on the inner
/// side of every other line that both ends of the edge lie on the inner
/// side of: the crossing lies between the two ends.
proof fn lemma_crossing_within(begin: Corner, end: Corner, clipping_edge: Line, other: Line, x: Corner)
    requires
        begin.den > 0,
        end.den > 0,
        x.den > 0,
        on_support(end.support, begin),
        begin.inside(clipping_edge) != end.inside(clipping_edge),
        on_support(end.support, x),
        x.side_of(clipping_edge) == 0,
        begin.side_of(other) <= 0,
        end.side_of(other) <= 0,
    ensures
        x.side_of(other) <= 0,
{
    let s = end.support;
    let k = clipping_edge;
    lemma_crossing_exists(begin, end, k);
    lemma_meets(s, k);
    lemma_own_support(end);
    lemma_side_form(begin, s);
    lemma_side_form(end, s);
    lemma_side_form(x, s);
    lemma_side_form(begin, k);
    lemma_side_form(end, k);
    lemma_side_form(x, k);
    lemma_side_form(begin, other);
    lemma_side_form(end, other);
    lemma_side_form(x, other);
    let bx = corner_x(begin);
    let by = corner_y(begin);
    let bw = begin.den as int;
    let ex = corner_x(end);
    let ey = corner_y(end);
    let ew = end.den as int;
    let fb = begin.side_of(k);
    let fe = end.side_of(k);
    // the point between the two ends at which the side of the clipping
    // edge is zero
    let (alpha, beta) = if fb < 0 {
        (fe, -fb)
    } else {
        (-fe, fb)
    };
    assert(alpha >= 0 && beta >= 0 && alpha + beta > 0);
    let yx = alpha * bx + beta * ex;
    let yy = alpha * by + beta * ey;
    let yw = alpha * bw + beta * ew;
    assert(yw > 0) by (nonlinear_arith)
        requires
            yw == alpha * bw + beta * ew,
            alpha >= 0,
            beta >= 0,
            alpha + beta > 0,
            bw > 0,
            ew > 0,
    ;
    lemma_form_combination(s, alpha, bx, by, bw, beta, ex, ey, ew);
    lemma_form_combination(k, alpha, bx, by, bw, beta, ex, ey, ew);
    lemma_form_combination(other, alpha, bx, by, bw, beta, ex, ey, ew);
    assert(form(s, yx, yy, yw) == 0) by (nonlinear_arith)
        requires
            form(s, yx, yy, yw) == alpha * form(s, bx, by, bw) + beta * form(s, ex, ey, ew),
            form(s, bx, by, bw) == 0,
            form(s, ex, ey, ew) == 0,
    ;
    assert(form(k, yx, yy, yw) == 0) by (nonlinear_arith)
        requires
            form(k, yx, yy, yw) == alpha * fb + beta * fe,
            (alpha == fe && beta == -fb) || (alpha == -fe && beta == fb),
    ;
    assert(form(other, yx, yy, yw) <= 0) by (nonlinear_arith)
        requires
            form(other, yx, yy, yw) == alpha * form(other, bx, by, bw) + beta * form(other, ex, ey, ew),
            alpha >= 0,
            beta >= 0,
            form(other, bx, by, bw) <= 0,
            form(other, ex, ey, ew) <= 0,
    ;
    let xx = corner_x(x);
    let xy = corner_y(x);
    let xw = x.den as int;
    assert(s.dx() * k.dy() - s.dy() * k.dx() != 0) by {
        assert(k.dx() * s.dy() - k.dy() * s.dx() == -(s.dx() * k.dy() - s.dy() * k.dx()))
            by (nonlinear_arith);
    }
    lemma_one_meeting_point(s, k, xx, xy, xw, yx, yy, yw);
    lemma_form_combination(other, yw, xx, xy, xw, -xw, yx, yy, yw);
    assert(yw * xx + (-xw) * yx == 0 && yw * xy + (-xw) * yy == 0 && yw * xw + (-xw) * yw == 0)
        by (nonlinear_arith)
        requires
            xx * yw == yx * xw,
            xy * yw == yy * xw,
    ;
    assert(form(other, 0, 0, 0) == 0) by {
        assert(other.first.y * 0 == 0 && other.first.x * 0 == 0);
        assert(other.dx() * 0 - other.dy() * 0 == 0);
    }
    assert(form(other, xx, xy, xw) * yw == form(other, yx, yy, yw) * xw) by (nonlinear_arith)
        requires
            yw * form(other, xx, xy, xw) + (-xw) * form(other, yx, yy, yw) == 0,
    ;
    assert(form(other, xx, xy, xw) <= 0) by (nonlinear_arith)
        requires
            form(other, xx, xy, xw) * yw == form(other, yx, yy, yw) * xw,
            form(other, yx, yy, yw) <= 0,
            yw > 0,
            xw > 0,
    ;
}


/// What one polygon edge contributes, by the sides of its two ends.
proof fn lemma_corner_output(begin: Corner, end: Corner, k: Line)
    requires
        begin.den > 0,
        end.den > 0,
        on_support(end.support, begin),
    ensures
        ({
            let out = corner_output(begin, end, k);
            let entering = meeting_corner(k, end.support);
            let leaving = meeting_corner(end.support, k);
            &&& begin.inside(k) && end.inside(k) ==> out == seq![end]
            &&& !begin.inside(k) && end.inside(k) ==> {
                &&& out == seq![entering, end]
                &&& entering.den > 0
                &&& entering.support == k
                &&& entering.side_of(k) == 0
                &&& on_support(k, entering)
                &&& on_support(end.support, entering)
                &&& k.first != k.last
            }
            &&& begin.inside(k) && !end.inside(k) ==> {
                &&& out == seq![leaving]
                &&& leaving.den > 0
                &&& leaving.support == end.support
                &&& leaving.side_of(k) == 0
                &&& on_support(k, leaving)
                &&& on_support(end.support, leaving)
                &&& k.first != k.last
            }
            &&& !begin.inside(k) && !end.inside(k) ==> out == Seq::<Corner>::empty()
        }),
{
    let out = corner_output(begin, end, k);
    if begin.inside(k) != end.inside(k) {
        lemma_crossing_exists(begin, end, k);
        if end.inside(k) {
            lemma_meeting_corner(k, end.support);
            assert(out =~= seq![meeting_corner(k, end.support), end]);
        } else {
            lemma_meeting_corner(end.support, k);
            assert(out =~= seq![meeting_corner(end.support, k)]);
        }
    }
}

/// What one polygon edge contributes lies on the inner side of every line
/// that both ends of the edge lie on the inner side of.
proof fn lemma_corner_output_within(begin: Corner, end: Corner, k: Line, other: Line)
    requires
        begin.den > 0,
        end.den > 0,
        on_support(end.support, begin),
        begin.side_of(other) <= 0,
        end.side_of(other) <= 0,
    ensures
        forall|m: int|
            0 <= m < corner_output(begin, end, k).len() ==> (#[trigger] corner_output(
                begin,
                end,
                k,
            )[m]).side_of(other) <= 0,
{
    lemma_corner_output(begin, end, k);
    if begin.inside(k) != end.inside(k) {
        if end.inside(k) {
            lemma_crossing_within(begin, end, k, other, meeting_corner(k, end.support));
        } else {
            lemma_crossing_within(begin, end, k, other, meeting_corner(end.support, k));
        }
    }
}

/// What holds of the contributions of the first `count` edges of a
/// consistent polygon: they lie within the clipping edge; each lies on the
/// support of the next; the last is the end of the last edge, or lies on
/// the clipping edge; the first runs along the first edge, or along the
/// clipping edge.
spec fn pass_state(corners: Seq<Corner>, k: Line, count: int) -> bool {
    let out = clipped_corners(corners, k, count);
    let end = following(corners, count - 1);
    &&& forall|m: int| 0 <= m < out.len() ==> (#[trigger] out[m]).den > 0 && out[m].side_of(k) <= 0
    &&& forall|m: int| 0 <= m && m + 1 < out.len() ==> on_support(out[m + 1].support, #[trigger] out[m])
    &&& out.len() > 0 ==> if end.inside(k) {
        out.last() == end
    } else {
        on_support(k, out.last()) && k.first != k.last
    }
    &&& out.len() > 0 ==> out[0].support == if corners[0].inside(k) {
        following(corners, 0).support
    } else {
        k
    }
    &&& out.len() == 0 && count >= 1 ==> !corners[0].inside(k) && !end.inside(k)
}

/// The contributions of the first `count` edges of a consistent polygon
/// are in that state.
proof fn lemma_pass_state(corners: Seq<Corner>, k: Line, count: int)
    requires
        consistent(corners),
        0 <= count <= corners.len(),
    ensures
        pass_state(corners, k, count),
    decreases count,
{
    if count > 0 {
        lemma_pass_state(corners, k, count - 1);
        let prev = clipped_corners(corners, k, count - 1);
        let begin = corners[count - 1];
        let end = following(corners, count - 1);
        let o = corner_output(begin, end, k);
        let out = clipped_corners(corners, k, count);
        assert(out == prev + o);
        assert(end == corners[if count == corners.len() {
            0
        } else {
            count
        }]);
        assert(on_support(following(corners, count - 1).support, corners[count - 1]));
        lemma_corner_output(begin, end, k);
        if count >= 2 {
            assert(following(corners, count - 2) == begin);
        }
        assert forall|m: int| 0 <= m < out.len() implies (#[trigger] out[m]).den > 0 && out[m].side_of(k)
            <= 0 by {
            if m < prev.len() {
                assert(out[m] == prev[m]);
            } else {
                assert(out[m] == o[m - prev.len()]);
            }
        }
        assert forall|m: int| 0 <= m && m + 1 < out.len() implies on_support(
            out[m + 1].support,
            #[trigger] out[m],
        ) by {
            if m + 1 < prev.len() {
                assert(out[m] == prev[m] && out[m + 1] == prev[m + 1]);
            } else if m < prev.len() {
                assert(out[m] == prev.last());
                assert(out[m + 1] == o[0]);
            } else {
                assert(out[m] == o[m - prev.len()]);
                assert(out[m + 1] == o[m + 1 - prev.len()]);
            }
        }
        if out.len() > 0 {
            if o.len() > 0 {
                assert(out.last() == o.last());
            } else {
                assert(out =~= prev);
            }
            if prev.len() > 0 {
                assert(out[0] == prev[0]);
            } else {
                assert(out =~= o);
            }
        }
    }
}

/// The contributions of the edges of a polygon all of whose corners lie on
/// the inner side of a line lie on the inner side of that line.
proof fn lemma_pass_within(corners: Seq<Corner>, k: Line, other: Line, count: int)
    requires
        consistent(corners),
        all_within(corners, other),
        0 <= count <= corners.len(),
    ensures
        all_within(clipped_corners(corners, k, count), other),
    decreases count,
{
    if count > 0 {
        lemma_pass_within(corners, k, other, count - 1);
        let prev = clipped_corners(corners, k, count - 1);
        let begin = corners[count - 1];
        let end = following(corners, count - 1);
        let o = corner_output(begin, end, k);
        let out = clipped_corners(corners, k, count);
        assert(end == corners[if count == corners.len() {
            0
        } else {
            count
        }]);
        assert(on_support(following(corners, count - 1).support, corners[count - 1]));
        lemma_corner_output_within(begin, end, k, other);
        assert forall|m: int| 0 <= m < out.len() implies (#[trigger] out[m]).side_of(other) <= 0 by {
            if m < prev.len() {
                assert(out[m] == prev[m]);
            } else {
                assert(out[m] == o[m - prev.len()]);
            }
        }
    }
}

/// A consistent polygon clipped by one edge is consistent, and lies within
/// the edge.
proof fn lemma_pass_consistent(corners: Seq<Corner>, k: Line)
    requires
        consistent(corners),
    ensures
        consistent(clipped_corners(corners, k, corners.len() as int)),
        all_within(clipped_corners(corners, k, corners.len() as int), k),
{
    let n = corners.len() as int;
    let out = clipped_corners(corners, k, n);
    lemma_pass_state(corners, k, n);
    if out.len() > 0 {
        assert(n > 0);
        assert(following(corners, n - 1) == corners[0]);
        assert(on_support(following(corners, 0).support, corners[0]));
        assert forall|i: int| 0 <= i < out.len() implies (#[trigger] out[i]).den > 0 && on_support(
            following(out, i).support,
            out[i],
        ) by {
            if i + 1 == out.len() {
                assert(following(out, i) == out[0]);
                assert(out[i] == out.last());
            } else {
                assert(following(out, i) == out[i + 1]);
            }
        }
    }
}

/// The corners of a polygon of lattice points are consistent.
proof fn lemma_polygon_corners_consistent(points: Seq<Point2d>)
    ensures
        consistent(polygon_corners(points)),
{
    let corners = polygon_corners(points);
    let n = points.len() as int;
    assert forall|i: int| 0 <= i < corners.len() implies (#[trigger] corners[i]).den > 0 && on_support(
        following(corners, i).support,
        corners[i],
    ) by {
        let c = corners[i];
        let next = following(corners, i).support;
        let from = c.support.first;
        let to = points[i];
        assert(c == lattice_corner(from, to));
        assert(next.first == to);
        lemma_lattice_corner(from, to, next);
        assert(side(next, to) == 0) by {
            assert(next.dx() * 0 - next.dy() * 0 == 0);
        }
        assert(c.side_of(next) == 0);
        assert(corner_x(c) == to.x * c.den && corner_y(c) == to.y * c.den) by {
            assert(c.den == 1 && c.num == 1);
            assert(corner_x(c) == from.x * 1 + 1 * (to.x - from.x));
            assert(corner_y(c) == from.y * 1 + 1 * (to.y - from.y));
        }
    }
}

/// Whether every corner lies within each of the first `count` edges of the
/// clip polygon.
pub open spec fn within_edges(corners: Seq<Corner>, clipping_polygon: Seq<Point2d>, count: int) -> bool {
    forall|j: int| 0 <= j < count ==> all_within(corners, #[trigger] polygon_edge(clipping_polygon, j))
}

/// What the first `count` clip edges leave is consistent and lies within
/// each of them.
proof fn lemma_clipped_by_within(points: Seq<Point2d>, clipping_polygon: Seq<Point2d>, count: int)
    requires
        0 <= count <= clipping_polygon.len(),
    ensures
        match clipped_by(polygon_corners(points), clipping_polygon, count) {
            Some(corners) => consistent(corners) && within_edges(corners, clipping_polygon, count),
            None => true,
        },
    decreases count,
{
    if count == 0 {
        lemma_polygon_corners_consistent(points);
    } else {
        lemma_clipped_by_within(points, clipping_polygon, count - 1);
        match clipped_by(polygon_corners(points), clipping_polygon, count - 1) {
            Some(partial) => {
                let k = polygon_edge(clipping_polygon, count - 1);
                let out = clipped_corners(partial, k, partial.len() as int);
                lemma_pass_consistent(partial, k);
                assert forall|j: int| 0 <= j < count implies all_within(
                    out,
                    #[trigger] polygon_edge(clipping_polygon, j),
                ) by {
                    if j < count - 1 {
                        lemma_pass_within(partial, k, polygon_edge(clipping_polygon, j), partial.len() as int);
                    }
                }
            },
            None => {},
        }
    }
}

/// Every corner of what Sutherland-Hodgman clipping leaves lies within
/// every edge of the clip polygon: on its inner side, or on its line.  The
/// corners are exact here; the vertices of the result are the lattice
/// points nearest to them.
pub proof fn lemma_sutherland_hodgman_within(
    points: Seq<Point2d>,
    clipping_polygon: Seq<Point2d>,
    j: int,
    i: int,
)
    requires
        0 <= j < clipping_polygon.len(),
    ensures
        match clipped_by(polygon_corners(points), clipping_polygon, clipping_polygon.len() as int) {
            Some(corners) => 0 <= i < corners.len() ==> corners[i].den > 0 && corners[i].side_of(
                polygon_edge(clipping_polygon, j),
            ) <= 0,
            None => true,
        },
{
    lemma_clipped_by_within(points, clipping_polygon, clipping_polygon.len() as int);
    match clipped_by(polygon_corners(points), clipping_polygon, clipping_polygon.len() as int) {
        Some(corners) => {
            assert(all_within(corners, polygon_edge(clipping_polygon, j)));
        },
        None => {},
    }
}

/// Whether the whole polygon lies on the inner side of the line, or on it.
pub open spec fn polygon_within(points: Seq<Point2d>, line: Line) -> bool {
    forall|i: int| 0 <= i < points.len() ==> side(line, #[trigger] points[i]) <= 0
}

/// What is left of a polygon after any number of clip edges lies on the
/// inner side of every line that the whole polygon lies on the inner side
/// of: clipping never leaves the convex hull of the polygon.
pub proof fn lemma_clipped_by_keeps_side(
    points: Seq<Point2d>,
    clipping_polygon: Seq<Point2d>,
    count: int,
    line: Line,
)
    requires
        0 <= count <= clipping_polygon.len(),
        polygon_within(points, line),
    ensures
        match clipped_by(polygon_corners(points), clipping_polygon, count) {
            Some(corners) => all_within(corners, line),
            None => true,
        },
    decreases count,
{
    if count == 0 {
        let corners = polygon_corners(points);
        assert forall|i: int| 0 <= i < corners.len() implies (#[trigger] corners[i]).side_of(line) <= 0 by {
            lemma_lattice_corner(corners[i].support.first, points[i], line);
        }
    } else {
        lemma_clipped_by_keeps_side(points, clipping_polygon, count - 1, line);
        lemma_clipped_by_within(points, clipping_polygon, count - 1);
        match clipped_by(polygon_corners(points), clipping_polygon, count - 1) {
            Some(partial) => {
                lemma_pass_within(
                    partial,
                    polygon_edge(clipping_polygon, count - 1),
                    line,
                    partial.len() as int,
                );
            },
            None => {},
        }
    }
}

/// The lattice point nearest to a corner lies within half a unit of it in
/// each coordinate.
proof fn lemma_nearest(c: Corner)
    requires
        c.den > 0,
    ensures
        ({
            let x = c.support.first.x + round_div(c.support.dx() * c.num, c.den as int);
            let y = c.support.first.y + round_div(c.support.dy() * c.num, c.den as int);
            &&& x == round_div(corner_x(c), c.den as int)
            &&& y == round_div(corner_y(c), c.den as int)
            &&& 2 * (x * c.den) - c.den <= 2 * corner_x(c) < 2 * (x * c.den) + c.den
            &&& 2 * (y * c.den) - c.den <= 2 * corner_y(c) < 2 * (y * c.den) + c.den
        }),
{
    let den = c.den as int;
    let num = c.num as int;
    let s = c.support;
    assert(s.dx() * num == num * s.dx() && s.dy() * num == num * s.dy()) by (nonlinear_arith);
    lemma_round_div_shift(s.dx() * num, den, s.first.x as int);
    lemma_round_div_shift(s.dy() * num, den, s.first.y as int);
    lemma_round_div_bounds(corner_x(c), den);
    lemma_round_div_bounds(corner_y(c), den);
    let x = round_div(corner_x(c), den);
    let y = round_div(corner_y(c), den);
    assert(2 * x * den == 2 * (x * den) && 2 * y * den == 2 * (y * den)) by (nonlinear_arith);
}

/// The line along the right edge of the lattice, with the lattice on its
/// inner side.
pub open spec fn lattice_right() -> Line {
    Line { first: Point2d { x: i32::MAX, y: 1 }, last: Point2d { x: i32::MAX, y: 0 } }
}

/// The line along the left edge of the lattice, with the lattice on its
/// inner side.
pub open spec fn lattice_left() -> Line {
    Line { first: Point2d { x: i32::MIN, y: 0 }, last: Point2d { x: i32::MIN, y: 1 } }
}

/// The line along the upper edge of the lattice, with the lattice on its
/// inner side.
pub open spec fn lattice_top() -> Line {
    Line { first: Point2d { x: 0, y: i32::MAX }, last: Point2d { x: 1, y: i32::MAX } }
}

/// The line along the lower edge of the lattice, with the lattice on its
/// inner side.
pub open spec fn lattice_bottom() -> Line {
    Line { first: Point2d { x: 1, y: i32::MIN }, last: Point2d { x: 0, y: i32::MIN } }
}

/// Every lattice point lies within the four edges of the lattice.
proof fn lemma_lattice_sides(p: Point2d)
    ensures
        side(lattice_right(), p) == p.x - i32::MAX,
        side(lattice_left(), p) == i32::MIN - p.x,
        side(lattice_top(), p) == p.y - i32::MAX,
        side(lattice_bottom(), p) == i32::MIN - p.y,
{
    lemma_side_is_form(lattice_right(), p);
    lemma_side_is_form(lattice_left(), p);
    lemma_side_is_form(lattice_top(), p);
    lemma_side_is_form(lattice_bottom(), p);
    lemma_lattice_forms(p.x as int, p.y as int, 1);
}

/// The sides of the four edges of the lattice.
proof fn lemma_lattice_forms(x: int, y: int, w: int)
    ensures
        form(lattice_right(), x, y, w) == x - i32::MAX * w,
        form(lattice_left(), x, y, w) == i32::MIN * w - x,
        form(lattice_top(), x, y, w) == y - i32::MAX * w,
        form(lattice_bottom(), x, y, w) == i32::MIN * w - y,
{
    assert(form(lattice_right(), x, y, w) == x - i32::MAX * w) by (nonlinear_arith)
        requires
            form(lattice_right(), x, y, w) == 0 * (y - 1 * w) - (-1) * (x - i32::MAX * w),
    ;
    assert(form(lattice_left(), x, y, w) == i32::MIN * w - x) by (nonlinear_arith)
        requires
            form(lattice_left(), x, y, w) == 0 * (y - 0 * w) - 1 * (x - i32::MIN * w),
    ;
    assert(form(lattice_top(), x, y, w) == y - i32::MAX * w) by (nonlinear_arith)
        requires
            form(lattice_top(), x, y, w) == 1 * (y - i32::MAX * w) - 0 * (x - 0 * w),
    ;
    assert(form(lattice_bottom(), x, y, w) == i32::MIN * w - y) by (nonlinear_arith)
        requires
            form(lattice_bottom(), x, y, w) == (-1) * (y - i32::MIN * w) - 0 * (x - 1 * w),
    ;
}

/// A corner within the four edges of the lattice rounds to a lattice point.
proof fn lemma_corner_fits(c: Corner)
    requires
        c.den > 0,
        c.side_of(lattice_right()) <= 0,
        c.side_of(lattice_left()) <= 0,
        c.side_of(lattice_top()) <= 0,
        c.side_of(lattice_bottom()) <= 0,
    ensures
        c.lattice_point().is_some(),
{
    let den = c.den as int;
    let x = corner_x(c);
    let y = corner_y(c);
    lemma_side_form(c, lattice_right());
    lemma_side_form(c, lattice_left());
    lemma_side_form(c, lattice_top());
    lemma_side_form(c, lattice_bottom());
    lemma_lattice_forms(x, y, den);
    lemma_nearest(c);
    lemma_round_div_between(x, den, i32::MIN as int, i32::MAX as int);
    lemma_round_div_between(y, den, i32::MIN as int, i32::MAX as int);
}

/// Where every corner rounds to a lattice point, none is left out.
proof fn lemma_lattice_points_whole(corners: Seq<Corner>, count: int)
    requires
        0 <= count <= corners.len(),
        forall|i: int| 0 <= i < corners.len() ==> (#[trigger] corners[i]).lattice_point().is_some(),
    ensures
        lattice_points(corners, count).len() == count,
        forall|i: int|
            0 <= i < count ==> Some(#[trigger] lattice_points(corners, count)[i]) == corners[i].lattice_point(),
    decreases count,
{
    if count > 0 {
        lemma_lattice_points_whole(corners, count - 1);
        assert(corners[count - 1].lattice_point().is_some());
    }
}

/// Every corner of what Sutherland-Hodgman clipping leaves rounds to a
/// lattice point: the result has one vertex for each corner, the lattice
/// point nearest to it.
pub proof fn lemma_sutherland_hodgman_in_lattice(polygon: PolygonView, clipping_polygon: Seq<Point2d>)
    ensures
        match clipped_by(polygon_corners(polygon.points), clipping_polygon, clipping_polygon.len() as int) {
            Some(corners) => {
                &&& sutherland_hodgman(polygon, clipping_polygon).is_some()
                &&& sutherland_hodgman(polygon, clipping_polygon).unwrap().points.len() == corners.len()
                &&& forall|i: int|
                    0 <= i < corners.len() ==> (#[trigger] corners[i]).lattice_point() == Some(
                        sutherland_hodgman(polygon, clipping_polygon).unwrap().points[i],
                    )
            },
            None => sutherland_hodgman(polygon, clipping_polygon).is_none(),
        },
{
    let points = polygon.points;
    let m = clipping_polygon.len() as int;
    lemma_clipped_by_within(points, clipping_polygon, m);
    assert forall|i: int| 0 <= i < points.len() implies side(lattice_right(), #[trigger] points[i]) <= 0
        && side(lattice_left(), points[i]) <= 0 && side(lattice_top(), points[i]) <= 0 && side(
        lattice_bottom(),
        points[i],
    ) <= 0 by {
        lemma_lattice_sides(points[i]);
    }
    lemma_clipped_by_keeps_side(points, clipping_polygon, m, lattice_right());
    lemma_clipped_by_keeps_side(points, clipping_polygon, m, lattice_left());
    lemma_clipped_by_keeps_side(points, clipping_polygon, m, lattice_top());
    lemma_clipped_by_keeps_side(points, clipping_polygon, m, lattice_bottom());
    match clipped_by(polygon_corners(points), clipping_polygon, m) {
        Some(corners) => {
            assert forall|i: int| 0 <= i < corners.len() implies (#[trigger] corners[i]).lattice_point().is_some() by {
                lemma_corner_fits(corners[i]);
            }
            lemma_lattice_points_whole(corners, corners.len() as int);
        },
        None => {},
    }
}

/// What one clipping edge leaves of a polygon.  Nothing is left exactly
/// where no vertex of the polygon lies strictly on the inner side of the
/// edge.  Every corner of what is left lies within the edge and rounds to
/// a lattice point: the result has one vertex for each corner, the lattice
/// point nearest to it.
pub proof fn lemma_half_plane_clip(polygon: PolygonView, clipping_edge: Line)
    ensures
        half_plane_clip(polygon, clipping_edge).is_none() <==> none_inside(polygon.points, clipping_edge),
        match half_plane_corners(polygon_corners(polygon.points), clipping_edge) {
            Some(corners) => {
                &&& half_plane_clip(polygon, clipping_edge).is_some()
                &&& half_plane_clip(polygon, clipping_edge).unwrap().points.len() == corners.len()
                &&& forall|i: int|
                    0 <= i < corners.len() ==> {
                        &&& (#[trigger] corners[i]).den > 0
                        &&& corners[i].side_of(clipping_edge) <= 0
                        &&& corners[i].lattice_point() == Some(
                            half_plane_clip(polygon, clipping_edge).unwrap().points[i],
                        )
                    }
            },
            None => half_plane_clip(polygon, clipping_edge).is_none(),
        },
{
    let points = polygon.points;
    let corners = polygon_corners(points);
    let n = corners.len() as int;
    lemma_half_plane_corners_none(corners, clipping_edge);
    lemma_polygon_corners_inside(points, clipping_edge);
    lemma_polygon_corners_consistent(points);
    lemma_pass_consistent(corners, clipping_edge);
    assert forall|i: int| 0 <= i < corners.len() implies (#[trigger] corners[i]).side_of(lattice_right())
        <= 0 && corners[i].side_of(lattice_left()) <= 0 && corners[i].side_of(lattice_top()) <= 0
        && corners[i].side_of(lattice_bottom()) <= 0 by {
        lemma_lattice_sides(points[i]);
        lemma_lattice_corner(corners[i].support.first, points[i], lattice_right());
        lemma_lattice_corner(corners[i].support.first, points[i], lattice_left());
        lemma_lattice_corner(corners[i].support.first, points[i], lattice_top());
        lemma_lattice_corner(corners[i].support.first, points[i], lattice_bottom());
    }
    lemma_pass_within(corners, clipping_edge, lattice_right(), n);
    lemma_pass_within(corners, clipping_edge, lattice_left(), n);
    lemma_pass_within(corners, clipping_edge, lattice_top(), n);
    lemma_pass_within(corners, clipping_edge, lattice_bottom(), n);
    let left = clipped_corners(corners, clipping_edge, n);
    if left.len() > 0 {
        assert forall|i: int| 0 <= i < left.len() implies (#[trigger] left[i]).lattice_point().is_some() by {
            lemma_corner_fits(left[i]);
        }
        lemma_lattice_points_whole(left, left.len() as int);
    }
}

/// Every vertex of what Sutherland-Hodgman clipping leaves lies within
/// every edge of the clip polygon but for the rounding of its two
/// coordinates: by at most half a unit along each axis.
pub proof fn lemma_sutherland_hodgman_vertices_within(
    polygon: PolygonView,
    clipping_polygon: Seq<Point2d>,
    j: int,
    v: int,
)
    requires
        0 <= j < clipping_polygon.len(),
    ensures
        match sutherland_hodgman(polygon, clipping_polygon) {
            Some(clipped) => 0 <= v < clipped.points.len() ==> 2 * side(
                polygon_edge(clipping_polygon, j),
                clipped.points[v],
            ) <= abs(polygon_edge(clipping_polygon, j).dx()) + abs(polygon_edge(clipping_polygon, j).dy()),
            None => true,
        },
{
    let edge = polygon_edge(clipping_polygon, j);
    lemma_sutherland_hodgman_in_lattice(polygon, clipping_polygon);
    lemma_sutherland_hodgman_within(polygon.points, clipping_polygon, j, v);
    match clipped_by(polygon_corners(polygon.points), clipping_polygon, clipping_polygon.len() as int) {
        Some(corners) => {
            if 0 <= v < corners.len() {
                let c = corners[v];
                let p = sutherland_hodgman(polygon, clipping_polygon).unwrap().points[v];
                assert(c.lattice_point() == Some(p));
                let den = c.den as int;
                lemma_nearest(c);
                lemma_side_form(c, edge);
                lemma_side_is_form(edge, p);
                // the way from the corner to its lattice point, scaled
                let ux = 1 * corner_x(c) + (-den) * p.x;
                let uy = 1 * corner_y(c) + (-den) * p.y;
                lemma_form_combination(edge, 1, corner_x(c), corner_y(c), den, -den, p.x as int, p.y as int, 1);
                assert(1 * den + (-den) * 1 == 0);
                assert((-den) * p.x == -(p.x * den) && (-den) * p.y == -(p.y * den)) by (nonlinear_arith);
                assert(edge.first.y * 0 == 0 && edge.first.x * 0 == 0);
                assert(form(edge, ux, uy, 0) == edge.dx() * uy - edge.dy() * ux);
                assert(2 * (edge.dx() * uy) >= -(abs(edge.dx()) * den)) by (nonlinear_arith)
                    requires
                        -den <= 2 * uy <= den,
                        den > 0,
                ;
                assert(2 * (edge.dy() * ux) <= abs(edge.dy()) * den) by (nonlinear_arith)
                    requires
                        -den <= 2 * ux <= den,
                        den > 0,
                ;
                let s = side(edge, p);
                assert((-den) * s == -(s * den)) by (nonlinear_arith);
                assert(2 * (s * den) <= (abs(edge.dx()) + abs(edge.dy())) * den) by (nonlinear_arith)
                    requires
                        c.side_of(edge) - s * den == edge.dx() * uy - edge.dy() * ux,
                        c.side_of(edge) <= 0,
                        2 * (edge.dx() * uy) >= -(abs(edge.dx()) * den),
                        2 * (edge.dy() * ux) <= abs(edge.dy()) * den,
                ;
                assert(2 * s <= abs(edge.dx()) + abs(edge.dy())) by (nonlinear_arith)
                    requires
                        2 * (s * den) <= (abs(edge.dx()) + abs(edge.dy())) * den,
                        den > 0,
                ;
            }
        },
        None => {},
    }
}

/// Whether the point `(x / w, y / w)` lies on the inner side of every line
/// of the lattice that the whole polygon lies on the inner side of.  Of a
/// polygon with an area these are the points of its convex hull.
pub open spec fn in_hull(points: Seq<Point2d>, x: int, y: int, w: int) -> bool {
    &&& w > 0
    &&& forall|line: Line| polygon_within(points, line) ==> #[trigger] form(line, x, y, w) <= 0
}

/// Whether the point `(x / w, y / w)` lies strictly on the inner side of
/// each of the first `count` edges of the clip polygon.
pub open spec fn strictly_within_edges(
    clipping_polygon: Seq<Point2d>,
    count: int,
    x: int,
    y: int,
    w: int,
) -> bool {
    forall|j: int| 0 <= j < count ==> form(#[trigger] polygon_edge(clipping_polygon, j), x, y, w) < 0
}

/// The side of a point on the way from the point `(x0 / w0, y0 / w0)` to
/// a corner.
proof fn lemma_towards_corner(line: Line, v: Corner, a: int, x0: int, y0: int, w0: int)
    requires
        a > 0,
    ensures
        form(line, a * corner_x(v) + x0, a * corner_y(v) + y0, a * v.den + w0) == a * v.side_of(line) + form(
            line,
            x0,
            y0,
            w0,
        ),
        v.side_of(line) <= 0 ==> a * v.side_of(line) <= 0,
        v.side_of(line) < 0 ==> a * v.side_of(line) <= -a,
{
    lemma_side_form(v, line);
    lemma_form_combination(line, a, corner_x(v), corner_y(v), v.den as int, 1, x0, y0, w0);
    let f = v.side_of(line);
    assert(1 * form(line, x0, y0, w0) == form(line, x0, y0, w0));
    assert((f <= 0 ==> a * f <= 0) && (f < 0 ==> a * f <= -a)) by (nonlinear_arith)
        requires
            a > 0,
    ;
}

/// From a point of the hull strictly inside the edges before, and a corner
/// within those edges and strictly inside one more, a point of the hull
/// strictly inside all of them: one on the way to the corner and near it.
proof fn lemma_nearer_point(
    points: Seq<Point2d>,
    clipping_polygon: Seq<Point2d>,
    count: int,
    v: Corner,
    x0: int,
    y0: int,
    w0: int,
) -> (point: (int, int, int))
    requires
        count >= 1,
        in_hull(points, x0, y0, w0),
        strictly_within_edges(clipping_polygon, count - 1, x0, y0, w0),
        v.den > 0,
        v.inside(polygon_edge(clipping_polygon, count - 1)),
        forall|j: int| 0 <= j < count - 1 ==> v.side_of(#[trigger] polygon_edge(clipping_polygon, j)) <= 0,
        forall|line: Line| polygon_within(points, line) ==> #[trigger] v.side_of(line) <= 0,
    ensures
        in_hull(points, point.0, point.1, point.2),
        strictly_within_edges(clipping_polygon, count, point.0, point.1, point.2),
{
    let k = polygon_edge(clipping_polygon, count - 1);
    let a = abs(form(k, x0, y0, w0)) + 1;
    let x = a * corner_x(v) + x0;
    let y = a * corner_y(v) + y0;
    let w = a * v.den + w0;
    assert(a * v.den > 0) by (nonlinear_arith)
        requires
            a > 0,
            v.den > 0,
    ;
    assert forall|line: Line| polygon_within(points, line) implies #[trigger] form(line, x, y, w) <= 0 by {
        lemma_towards_corner(line, v, a, x0, y0, w0);
        assert(v.side_of(line) <= 0);
        assert(form(line, x0, y0, w0) <= 0);
    }
    assert forall|j: int| 0 <= j < count implies form(#[trigger] polygon_edge(clipping_polygon, j), x, y, w)
        < 0 by {
        let edge = polygon_edge(clipping_polygon, j);
        lemma_towards_corner(edge, v, a, x0, y0, w0);
        if j < count - 1 {
            assert(v.side_of(edge) <= 0);
            assert(form(edge, x0, y0, w0) < 0);
        }
    }
    (x, y, w)
}

/// Where the first `count` clip edges leave a polygon, some point of the
/// hull lies strictly inside each of them.
proof fn lemma_overlap_steps(points: Seq<Point2d>, clipping_polygon: Seq<Point2d>, count: int)
    requires
        points.len() > 0,
        0 <= count <= clipping_polygon.len(),
    ensures
        clipped_by(polygon_corners(points), clipping_polygon, count).is_some() ==> exists|
            x: int,
            y: int,
            w: int,
        |
            in_hull(points, x, y, w) && strictly_within_edges(clipping_polygon, count, x, y, w),
    decreases count,
{
    if clipped_by(polygon_corners(points), clipping_polygon, count).is_some() {
        if count == 0 {
            let p = points[0];
            assert forall|line: Line| polygon_within(points, line) implies #[trigger] form(
                line,
                p.x as int,
                p.y as int,
                1,
            ) <= 0 by {
                lemma_side_is_form(line, p);
            }
            assert(in_hull(points, p.x as int, p.y as int, 1) && strictly_within_edges(
                clipping_polygon,
                count,
                p.x as int,
                p.y as int,
                1,
            ));
        } else {
            lemma_overlap_steps(points, clipping_polygon, count - 1);
            lemma_clipped_by_within(points, clipping_polygon, count - 1);
            let partial = clipped_by(polygon_corners(points), clipping_polygon, count - 1).unwrap();
            let k = polygon_edge(clipping_polygon, count - 1);
            let (x0, y0, w0) = choose|x: int, y: int, w: int|
                in_hull(points, x, y, w) && strictly_within_edges(clipping_polygon, count - 1, x, y, w);
            lemma_half_plane_corners_none(partial, k);
            let i = choose|i: int| 0 <= i < partial.len() && (#[trigger] partial[i]).inside(k);
            let v = partial[i];
            assert forall|line: Line| polygon_within(points, line) implies #[trigger] v.side_of(line)
                <= 0 by {
                lemma_clipped_by_keeps_side(points, clipping_polygon, count - 1, line);
            }
            assert forall|j: int| 0 <= j < count - 1 implies v.side_of(
                #[trigger] polygon_edge(clipping_polygon, j),
            ) <= 0 by {
                assert(all_within(partial, polygon_edge(clipping_polygon, j)));
            }
            let point = lemma_nearer_point(points, clipping_polygon, count, v, x0, y0, w0);
            assert(in_hull(points, point.0, point.1, point.2) && strictly_within_edges(
                clipping_polygon,
                count,
                point.0,
                point.1,
                point.2,
            ));
        }
    }
}

/// Where Sutherland-Hodgman clipping leaves a polygon, some point of the
/// convex hull of the polygon lies strictly on the inner side of every
/// edge of the clip polygon.
pub proof fn lemma_sutherland_hodgman_overlap(polygon: PolygonView, clipping_polygon: Seq<Point2d>)
    requires
        polygon.points.len() > 0 || clipping_polygon.len() > 0,
    ensures
        sutherland_hodgman(polygon, clipping_polygon).is_some() ==> exists|x: int, y: int, w: int|
            in_hull(polygon.points, x, y, w) && strictly_within_edges(
                clipping_polygon,
                clipping_polygon.len() as int,
                x,
                y,
                w,
            ),
{
    let corners = polygon_corners(polygon.points);
    if polygon.points.len() > 0 {
        lemma_overlap_steps(polygon.points, clipping_polygon, clipping_polygon.len() as int);
    } else {
        assert(clipped_corners(corners, polygon_edge(clipping_polygon, 0), 0).len() == 0);
        assert(clipped_by(corners, clipping_polygon, 0) == Some(corners));
        assert(clipped_by(corners, clipping_polygon, 1).is_none());
        lemma_clipped_by_stays_none(corners, clipping_polygon, 1, clipping_polygon.len() as int);
    }
}

/// A polygon outside the clip polygon leaves nothing: one no point of
/// whose convex hull lies strictly on the inner side of every edge of the
/// clip polygon.
pub proof fn lemma_sutherland_hodgman_outside(polygon: PolygonView, clipping_polygon: Seq<Point2d>)
    requires
        polygon.points.len() > 0 || clipping_polygon.len() > 0,
        forall|x: int, y: int, w: int| #[trigger]
            in_hull(polygon.points, x, y, w) ==> !strictly_within_edges(
                clipping_polygon,
                clipping_polygon.len() as int,
                x,
                y,
                w,
            ),
    ensures
        sutherland_hodgman(polygon, clipping_polygon).is_none(),
{
    lemma_sutherland_hodgman_overlap(polygon, clipping_polygon);
}

/// The same line run the other way has its sides exchanged.
proof fn lemma_reversed_form(edge: Line, x: int, y: int, w: int)
    ensures
        form(Line { first: edge.last, last: edge.first }, x, y, w) == -form(edge, x, y, w),
{
    let dx = edge.dx();
    let dy = edge.dy();
    let u = x - edge.first.x * w;
    let v = y - edge.first.y * w;
    assert(x - edge.last.x * w == u - dx * w && y - edge.last.y * w == v - dy * w) by (nonlinear_arith)
        requires
            u == x - edge.first.x * w,
            v == y - edge.first.y * w,
            dx == edge.last.x - edge.first.x,
            dy == edge.last.y - edge.first.y,
    ;
    assert((-dx) * (v - dy * w) - (-dy) * (u - dx * w) == -(dx * v - dy * u)) by (nonlinear_arith);
}

/// A polygon no vertex of which lies strictly on the inner side of one
/// edge of the clip polygon leaves nothing, whichever edge it is.
pub proof fn lemma_sutherland_hodgman_beyond_edge(
    polygon: PolygonView,
    clipping_polygon: Seq<Point2d>,
    j: int,
)
    requires
        0 <= j < clipping_polygon.len(),
        none_inside(polygon.points, polygon_edge(clipping_polygon, j)),
    ensures
        sutherland_hodgman(polygon, clipping_polygon).is_none(),
{
    let points = polygon.points;
    let m = clipping_polygon.len() as int;
    let edge = polygon_edge(clipping_polygon, j);
    if sutherland_hodgman(polygon, clipping_polygon).is_some() {
        lemma_sutherland_hodgman_overlap(polygon, clipping_polygon);
        let (x, y, w) = choose|x: int, y: int, w: int|
            in_hull(points, x, y, w) && strictly_within_edges(clipping_polygon, m, x, y, w);
        let reversed = Line { first: edge.last, last: edge.first };
        assert forall|i: int| 0 <= i < points.len() implies side(reversed, #[trigger] points[i]) <= 0 by {
            lemma_side_is_form(edge, points[i]);
            lemma_side_is_form(reversed, points[i]);
            lemma_reversed_form(edge, points[i].x as int, points[i].y as int, 1);
            assert(!is_inside(points[i], edge));
        }
        assert(polygon_within(points, reversed));
        assert(form(reversed, x, y, w) <= 0);
        lemma_reversed_form(edge, x, y, w);
        assert(form(polygon_edge(clipping_polygon, j), x, y, w) < 0);
    }
}

/// Whether the corner is a vertex of the polygon, or lies on the line of
/// one of the first `count` edges of the clip polygon.
pub open spec fn vertex_or_on_edge(
    points: Seq<Point2d>,
    clipping_polygon: Seq<Point2d>,
    count: int,
    c: Corner,
) -> bool {
    ||| exists|i: int| 0 <= i < points.len() && c == #[trigger] polygon_corners(points)[i]
    ||| exists|k: int| 0 <= k < count && c.side_of(#[trigger] polygon_edge(clipping_polygon, k)) == 0
}

/// Each contribution of an edge is an end of the edge or lies on the line
/// of the clipping edge.
proof fn lemma_pass_origin(
    points: Seq<Point2d>,
    clipping_polygon: Seq<Point2d>,
    edges: int,
    corners: Seq<Corner>,
    count: int,
)
    requires
        edges >= 1,
        consistent(corners),
        0 <= count <= corners.len(),
        forall|i: int|
            0 <= i < corners.len() ==> vertex_or_on_edge(
                points,
                clipping_polygon,
                edges - 1,
                #[trigger] corners[i],
            ),
    ensures
        ({
            let out = clipped_corners(corners, polygon_edge(clipping_polygon, edges - 1), count);
            forall|m: int|
                0 <= m < out.len() ==> vertex_or_on_edge(points, clipping_polygon, edges, #[trigger] out[m])
        }),
    decreases count,
{
    if count > 0 {
        let k = polygon_edge(clipping_polygon, edges - 1);
        lemma_pass_origin(points, clipping_polygon, edges, corners, count - 1);
        let prev = clipped_corners(corners, k, count - 1);
        let begin = corners[count - 1];
        let end = following(corners, count - 1);
        let o = corner_output(begin, end, k);
        let out = clipped_corners(corners, k, count);
        assert(end == corners[if count == corners.len() {
            0
        } else {
            count
        }]);
        assert(on_support(following(corners, count - 1).support, corners[count - 1]));
        lemma_corner_output(begin, end, k);
        assert(vertex_or_on_edge(points, clipping_polygon, edges - 1, end));
        assert(vertex_or_on_edge(points, clipping_polygon, edges, end));
        assert forall|m: int| 0 <= m < out.len() implies vertex_or_on_edge(
            points,
            clipping_polygon,
            edges,
            #[trigger] out[m],
        ) by {
            if m < prev.len() {
                assert(out[m] == prev[m]);
            } else {
                assert(out[m] == o[m - prev.len()]);
                if out[m] != end {
                    assert(out[m].side_of(polygon_edge(clipping_polygon, edges - 1)) == 0);
                }
            }
        }
    }
}

/// Every corner of what Sutherland-Hodgman clipping leaves is a vertex of
/// the polygon, or lies on the line of an edge of the clip polygon.
pub proof fn lemma_sutherland_hodgman_origin(
    points: Seq<Point2d>,
    clipping_polygon: Seq<Point2d>,
    count: int,
)
    requires
        0 <= count <= clipping_polygon.len(),
    ensures
        match clipped_by(polygon_corners(points), clipping_polygon, count) {
            Some(corners) => forall|i: int|
                0 <= i < corners.len() ==> vertex_or_on_edge(
                    points,
                    clipping_polygon,
                    count,
                    #[trigger] corners[i],
                ),
            None => true,
        },
    decreases count,
{
    if count > 0 {
        lemma_sutherland_hodgman_origin(points, clipping_polygon, count - 1);
        lemma_clipped_by_within(points, clipping_polygon, count - 1);
        match clipped_by(polygon_corners(points), clipping_polygon, count - 1) {
            Some(partial) => {
                lemma_pass_origin(points, clipping_polygon, count, partial, partial.len() as int);
            },
            None => {},
        }
    }
}

} // verus!
