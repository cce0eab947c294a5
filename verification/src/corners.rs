//! Polygons whose corners are kept exact while they are clipped.  A corner
//! is a position on the line of a lattice segment; only the corners of the
//! finished polygon are rounded to the lattice.

use vstd::prelude::*;
use crate::arith::{div_round, fraction_lt, lemma_product_bound, lemma_round_div_magnitude, round_div};
use crate::clipping::{edge_side, fits_lattice, meeting_position, polygon_edge, side, Parameter};
use crate::line::Line;
use crate::point2d::Point2d;

verus! {

/// The side of `edge` on which the exact point of `line` at the position
/// `t` lies, scaled by the positive denominator of `t`.
pub open spec fn side_at(line: Line, edge: Line, t: Parameter) -> int {
    side(edge, line.first) * t.den + t.num * (side(edge, line.last) - side(edge, line.first))
}

/// A corner of a polygon that is being clipped: the exact point at the
/// position `num / den` on the line through `support`.  The polygon edge
/// that ends in the corner runs along `support`.
#[derive(Clone, Copy, Debug, PartialEq, Eq, Structural)]
pub struct Corner {
    pub support: Line,
    pub num: i128,
    pub den: i128,
}

impl Corner {
    /// The position of the corner on its support.
    pub open spec fn position(self) -> Parameter {
        Parameter { num: self.num as int, den: self.den as int }
    }

    /// The denominator is positive, and both numbers are small enough to be
    /// compared by cross-multiplication.
    pub open spec fn well_formed(self) -> bool {
        &&& 0 < self.den < 0x4_0000_0000_0000_0000
        &&& -0x4_0000_0000_0000_0000 < self.num < 0x4_0000_0000_0000_0000
    }

    /// The side of `edge` on which the corner lies, scaled by the positive
    /// denominator of its position.
    pub open spec fn side_of(self, edge: Line) -> int {
        side_at(self.support, edge, self.position())
    }

    /// Whether the corner lies strictly on the inner side of `edge`.
    pub open spec fn inside(self, edge: Line) -> bool {
        self.side_of(edge) < 0
    }

    /// The lattice point nearest to the corner, if it lies in the lattice.
    pub open spec fn lattice_point(self) -> Option<Point2d> {
        let x = self.support.first.x + round_div(self.support.dx() * self.num, self.den as int);
        let y = self.support.first.y + round_div(self.support.dy() * self.num, self.den as int);
        if fits_lattice(x) && fits_lattice(y) {
            Some(Point2d { x: x as i32, y: y as i32 })
        } else {
            None
        }
    }
}

/// The corner in which the polygon edge from `from` to `to` ends.
pub open spec fn lattice_corner(from: Point2d, to: Point2d) -> Corner {
    Corner { support: Line { first: from, last: to }, num: 1, den: 1 }
}

/// The corners of a polygon of lattice points: each point as the end of the
/// edge that leads to it from the point before; the first point follows the
/// last.
pub open spec fn polygon_corners(points: Seq<Point2d>) -> Seq<Corner> {
    Seq::new(
        points.len(),
        |j: int|
            lattice_corner(
                points[if j == 0 {
                    points.len() - 1
                } else {
                    j - 1
                }],
                points[j],
            ),
    )
}

/// Whether the line through `line` never meets the line through `other`:
/// the two are parallel, or one of them has no length.
pub open spec fn never_meets(line: Line, other: Line) -> bool {
    side(other, line.first) == side(other, line.last)
}

/// The point in which the line through `support` meets the line through
/// `other`, as a position on `support`.
pub open spec fn meeting_corner(support: Line, other: Line) -> Corner {
    let t = meeting_position(support, other);
    Corner { support, num: t.num as i128, den: t.den as i128 }
}

/// Where a polygon edge along `support` leaves the inner side of the
/// clipping edge: the exact crossing, as the end of the part of the polygon
/// edge that is kept.  Nothing where the two lines never meet.
pub open spec fn leaving_corner(support: Line, clipping_edge: Line) -> Seq<Corner> {
    if never_meets(support, clipping_edge) {
        Seq::empty()
    } else {
        seq![meeting_corner(support, clipping_edge)]
    }
}

/// Where a polygon edge along `support` comes to the inner side of the
/// clipping edge: the exact crossing, as the end of the new polygon edge
/// that runs along the clipping edge.  Nothing where the two lines never
/// meet.
pub open spec fn entering_corner(support: Line, clipping_edge: Line) -> Seq<Corner> {
    if never_meets(clipping_edge, support) {
        Seq::empty()
    } else {
        seq![meeting_corner(clipping_edge, support)]
    }
}

/// What the polygon edge from `begin` to `end` contributes to the polygon
/// clipped by one edge: `end` where both corners are inside; the crossing
/// and then `end` where the edge comes in; the crossing alone where it goes
/// out; nothing where both corners are outside.
pub open spec fn corner_output(begin: Corner, end: Corner, clipping_edge: Line) -> Seq<Corner> {
    if end.inside(clipping_edge) {
        if begin.inside(clipping_edge) {
            seq![end]
        } else {
            entering_corner(end.support, clipping_edge).push(end)
        }
    } else {
        if begin.inside(clipping_edge) {
            leaving_corner(end.support, clipping_edge)
        } else {
            Seq::empty()
        }
    }
}

/// The corner that follows corner `i`; the first follows the last.
pub open spec fn following(corners: Seq<Corner>, i: int) -> Corner {
    corners[if i + 1 == corners.len() {
        0
    } else {
        i + 1
    }]
}

/// The contributions of the first `count` edges of the polygon, in order.
/// Edge `i` leads from corner `i` to the corner that follows it.
pub open spec fn clipped_corners(corners: Seq<Corner>, clipping_edge: Line, count: int) -> Seq<Corner>
    decreases count,
{
    if count <= 0 {
        Seq::empty()
    } else {
        clipped_corners(corners, clipping_edge, count - 1) + corner_output(
            corners[count - 1],
            following(corners, count - 1),
            clipping_edge,
        )
    }
}

/// The corners of the polygon clipped by the half-plane on the inner side
/// of one edge, or nothing where no corner is left.
pub open spec fn half_plane_corners(corners: Seq<Corner>, clipping_edge: Line) -> Option<Seq<Corner>> {
    let clipped = clipped_corners(corners, clipping_edge, corners.len() as int);
    if clipped.len() > 0 {
        Some(clipped)
    } else {
        None
    }
}

/// The corners of the polygon clipped in turn by the first `count` edges of
/// the clip polygon; nothing as soon as one edge leaves no corner.
pub open spec fn clipped_by(corners: Seq<Corner>, clipping_polygon: Seq<Point2d>, count: int) -> Option<
    Seq<Corner>,
>
    decreases count,
{
    if count <= 0 {
        Some(corners)
    } else {
        match clipped_by(corners, clipping_polygon, count - 1) {
            Some(partial) => half_plane_corners(partial, polygon_edge(clipping_polygon, count - 1)),
            None => None,
        }
    }
}

/// The lattice points nearest to the first `count` corners, in order; a
/// corner outside the lattice is left out.
pub open spec fn lattice_points(corners: Seq<Corner>, count: int) -> Seq<Point2d>
    decreases count,
{
    if count <= 0 {
        Seq::empty()
    } else {
        let rest = lattice_points(corners, count - 1);
        match corners[count - 1].lattice_point() {
            Some(p) => rest.push(p),
            None => rest,
        }
    }
}

/// Whether every corner is well formed.
pub open spec fn all_well_formed(corners: Seq<Corner>) -> bool {
    forall|i: int| 0 <= i < corners.len() ==> (#[trigger] corners[i]).well_formed()
}

/// The corners of a polygon of lattice points.
pub fn corners_of(points: &Vec<Point2d>) -> (corners: Vec<Corner>)
    ensures
        corners@ == polygon_corners(points@),
        all_well_formed(corners@),
{
    let n = points.len();
    let mut corners: Vec<Corner> = Vec::new();
    let mut j: usize = 0;
    while j < n
        invariant
            n == points@.len(),
            0 <= j <= n,
            corners@ == polygon_corners(points@).take(j as int),
            all_well_formed(corners@),
        decreases n - j,
    {
        let previous: usize = if j == 0 {
            n - 1
        } else {
            j - 1
        };
        let corner = Corner { support: Line { first: points[previous], last: points[j] }, num: 1, den: 1 };
        corners.push(corner);
        assert(corners@ =~= polygon_corners(points@).take(j + 1));
        j = j + 1;
    }
    assert(polygon_corners(points@).take(n as int) =~= polygon_corners(points@));
    corners
}

/// Whether the corner lies strictly on the inner side of the edge.
pub fn corner_inside(corner: &Corner, clipping_edge: &Line) -> (r: bool)
    requires
        corner.well_formed(),
    ensures
        r == corner.inside(*clipping_edge),
{
    let at_first = edge_side(clipping_edge, &corner.support.first);
    let at_last = edge_side(clipping_edge, &corner.support.last);
    let rise = at_last - at_first;
    if corner.num == 0 {
        proof {
            assert((at_first * corner.den < 0) == (at_first < 0)) by (nonlinear_arith)
                requires
                    corner.den > 0,
            ;
            assert(corner.num * rise == 0) by (nonlinear_arith)
                requires
                    corner.num == 0,
            ;
        }
        at_first < 0
    } else if corner.num > 0 {
        proof {
            assert(corner.num * rise == -((-rise) * corner.num)) by (nonlinear_arith);
        }
        fraction_lt(at_first, corner.num, -rise, corner.den)
    } else {
        proof {
            assert(corner.num * rise == -(rise * (-corner.num))) by (nonlinear_arith);
        }
        fraction_lt(at_first, -corner.num, rise, corner.den)
    }
}

/// The point in which the line through `support` meets the line through
/// `other`, or nothing where the two never meet.
pub fn meet(support: &Line, other: &Line) -> (corner: Option<Corner>)
    ensures
        corner.is_none() == never_meets(*support, *other),
        corner matches Some(c) ==> c == meeting_corner(*support, *other) && c.well_formed(),
{
    let at_first = edge_side(other, &support.first);
    let at_last = edge_side(other, &support.last);
    if at_first == at_last {
        None
    } else if at_last < at_first {
        Some(Corner { support: *support, num: at_first, den: at_first - at_last })
    } else {
        Some(Corner { support: *support, num: -at_first, den: at_last - at_first })
    }
}

/// Clips a polygon of exact corners by the half-plane on the inner side of
/// one edge.
pub fn clip_corners(corners: &Vec<Corner>, clipping_edge: &Line) -> (result: Option<Vec<Corner>>)
    requires
        all_well_formed(corners@),
    ensures
        match result {
            Some(clipped) => half_plane_corners(corners@, *clipping_edge) == Some(clipped@) && all_well_formed(
                clipped@,
            ),
            None => half_plane_corners(corners@, *clipping_edge).is_none(),
        },
{
    let length = corners.len();
    let mut result: Vec<Corner> = Vec::new();
    let mut i: usize = 0;
    while i < length
        invariant
            length == corners@.len(),
            0 <= i <= length,
            all_well_formed(corners@),
            all_well_formed(result@),
            result@ == clipped_corners(corners@, *clipping_edge, i as int),
        decreases length - i,
    {
        let begin = corners[i];
        let end_index: usize = if i == length - 1 {
            0
        } else {
            i + 1
        };
        let end = corners[end_index];
        assert(end == following(corners@, i as int));
        let ghost before = result@;
        if corner_inside(&end, clipping_edge) {
            if corner_inside(&begin, clipping_edge) {
                result.push(end);
                assert(result@ =~= before + seq![end]);
            } else {
                match meet(clipping_edge, &end.support) {
                    None => {
                        result.push(end);
                        assert(result@ =~= before + Seq::<Corner>::empty().push(end));
                    },
                    Some(c) => {
                        result.push(c);
                        result.push(end);
                        assert(result@ =~= before + seq![c].push(end));
                    },
                }
            }
        } else {
            if corner_inside(&begin, clipping_edge) {
                match meet(&end.support, clipping_edge) {
                    None => {
                        assert(result@ =~= before + Seq::<Corner>::empty());
                    },
                    Some(c) => {
                        result.push(c);
                        assert(result@ =~= before + seq![c]);
                    },
                }
            } else {
                assert(result@ =~= before + Seq::<Corner>::empty());
            }
        }
        i = i + 1;
    }
    if result.len() > 0 {
        Some(result)
    } else {
        None
    }
}

/// The lattice point nearest to a corner, if it lies in the lattice.
pub fn lattice_point_of(corner: &Corner) -> (point: Option<Point2d>)
    requires
        corner.well_formed(),
    ensures
        point == corner.lattice_point(),
{
    let dx: i128 = corner.support.last.x as i128 - corner.support.first.x as i128;
    let dy: i128 = corner.support.last.y as i128 - corner.support.first.y as i128;
    proof {
        lemma_product_bound(dx as int, 0xffff_ffff, corner.num as int, 0x4_0000_0000_0000_0000);
        lemma_product_bound(dy as int, 0xffff_ffff, corner.num as int, 0x4_0000_0000_0000_0000);
        lemma_round_div_magnitude(dx * corner.num, corner.den as int);
        lemma_round_div_magnitude(dy * corner.num, corner.den as int);
    }
    let x: i128 = corner.support.first.x as i128 + div_round(dx * corner.num, corner.den);
    let y: i128 = corner.support.first.y as i128 + div_round(dy * corner.num, corner.den);
    if -0x8000_0000 <= x && x <= 0x7fff_ffff && -0x8000_0000 <= y && y <= 0x7fff_ffff {
        Some(Point2d::new(x as i32, y as i32))
    } else {
        None
    }
}

/// The lattice points nearest to the corners, in order.
pub fn lattice_points_of(corners: &Vec<Corner>) -> (points: Vec<Point2d>)
    requires
        all_well_formed(corners@),
    ensures
        points@ == lattice_points(corners@, corners@.len() as int),
{
    let mut points: Vec<Point2d> = Vec::new();
    let mut i: usize = 0;
    while i < corners.len()
        invariant
            0 <= i <= corners.len(),
            all_well_formed(corners@),
            points@ == lattice_points(corners@, i as int),
        decreases corners.len() - i,
    {
        match lattice_point_of(&corners[i]) {
            Some(p) => {
                points.push(p);
            },
            None => {},
        }
        i = i + 1;
    }
    points
}

} // verus!
