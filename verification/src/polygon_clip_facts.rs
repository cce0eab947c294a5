//! What holds of polygons clipped edge by edge.  One edge leaves nothing
//! exactly where no corner lies strictly on its inner side.  A polygon that
//! the clip polygon contains comes back whole, its vertices in the same
//! cyclic order, and clipping it again changes nothing more.

use vstd::prelude::*;
use crate::arith::{lemma_round_div_multiple, lemma_successor_mod};
use crate::clipping::{is_inside, polygon_edge, side, sutherland_hodgman};
use crate::corners::{
    clipped_by, clipped_corners, corner_output, following, half_plane_corners, lattice_corner,
    lattice_points, polygon_corners, Corner,
};
use crate::line::Line;
use crate::point2d::Point2d;
use crate::polygon::PolygonView;

verus! {

/// The vertices in the same cyclic order, starting `k` places later.
pub open spec fn rotated(points: Seq<Point2d>, k: int) -> Seq<Point2d> {
    Seq::new(
        points.len(),
        |j: int|
            if j + k < points.len() {
                points[j + k]
            } else {
                points[j + k - points.len()]
            },
    )
}

/// The corners in the same cyclic order, starting `k` places later.
pub open spec fn rotated_corners(corners: Seq<Corner>, k: int) -> Seq<Corner> {
    Seq::new(
        corners.len(),
        |j: int|
            if j + k < corners.len() {
                corners[j + k]
            } else {
                corners[j + k - corners.len()]
            },
    )
}

/// Whether every vertex lies strictly on the inner side of the edge.
pub open spec fn all_inside(points: Seq<Point2d>, clipping_edge: Line) -> bool {
    forall|j: int| 0 <= j < points.len() ==> is_inside(#[trigger] points[j], clipping_edge)
}

/// Whether no vertex lies strictly on the inner side of the edge.
pub open spec fn none_inside(points: Seq<Point2d>, clipping_edge: Line) -> bool {
    forall|j: int| 0 <= j < points.len() ==> !is_inside(#[trigger] points[j], clipping_edge)
}

/// Whether every corner lies strictly on the inner side of the edge.
pub open spec fn all_corners_inside(corners: Seq<Corner>, clipping_edge: Line) -> bool {
    forall|j: int| 0 <= j < corners.len() ==> (#[trigger] corners[j]).inside(clipping_edge)
}

/// Whether no corner lies strictly on the inner side of the edge.
pub open spec fn no_corner_inside(corners: Seq<Corner>, clipping_edge: Line) -> bool {
    forall|j: int| 0 <= j < corners.len() ==> !(#[trigger] corners[j]).inside(clipping_edge)
}

/// The corner in which an edge between two lattice points ends is the
/// second point.
pub proof fn lemma_lattice_corner(from: Point2d, to: Point2d, edge: Line)
    ensures
        lattice_corner(from, to).side_of(edge) == side(edge, to),
        lattice_corner(from, to).inside(edge) == is_inside(to, edge),
        lattice_corner(from, to).lattice_point() == Some(to),
{
    let c = lattice_corner(from, to);
    let a = side(edge, from);
    let b = side(edge, to);
    assert(a * 1 + 1 * (b - a) == b) by (nonlinear_arith);
    lemma_round_div_multiple(to.x - from.x, 1);
    lemma_round_div_multiple(to.y - from.y, 1);
    assert((to.x - from.x) * 1 == to.x - from.x && (to.y - from.y) * 1 == to.y - from.y)
        by (nonlinear_arith);
}

proof fn lemma_clipped_corners_all_inside(corners: Seq<Corner>, clipping_edge: Line, count: int)
    requires
        0 <= count <= corners.len(),
        all_corners_inside(corners, clipping_edge),
    ensures
        clipped_corners(corners, clipping_edge, count) == rotated_corners(corners, 1).take(count),
    decreases count,
{
    if count > 0 {
        lemma_clipped_corners_all_inside(corners, clipping_edge, count - 1);
        assert(corners[count - 1].inside(clipping_edge));
        let end = following(corners, count - 1);
        assert(end.inside(clipping_edge));
        assert(clipped_corners(corners, clipping_edge, count) =~= rotated_corners(corners, 1).take(count));
    } else {
        assert(clipped_corners(corners, clipping_edge, count) =~= rotated_corners(corners, 1).take(count));
    }
}

proof fn lemma_clipped_corners_none_inside(corners: Seq<Corner>, clipping_edge: Line, count: int)
    requires
        0 <= count <= corners.len(),
        no_corner_inside(corners, clipping_edge),
    ensures
        clipped_corners(corners, clipping_edge, count) == Seq::<Corner>::empty(),
    decreases count,
{
    if count > 0 {
        lemma_clipped_corners_none_inside(corners, clipping_edge, count - 1);
        assert(!corners[count - 1].inside(clipping_edge));
        let end = following(corners, count - 1);
        assert(!end.inside(clipping_edge));
    }
}

proof fn lemma_clipped_corners_grow(corners: Seq<Corner>, clipping_edge: Line, low: int, high: int)
    requires
        low <= high,
    ensures
        clipped_corners(corners, clipping_edge, low).len() <= clipped_corners(
            corners,
            clipping_edge,
            high,
        ).len(),
    decreases high - low,
{
    if low < high {
        lemma_clipped_corners_grow(corners, clipping_edge, low, high - 1);
    }
}

/// One clipping edge leaves nothing of a polygon exactly when no corner of
/// the polygon lies strictly on the inner side of the edge.
pub proof fn lemma_half_plane_corners_none(corners: Seq<Corner>, clipping_edge: Line)
    ensures
        half_plane_corners(corners, clipping_edge).is_none() <==> no_corner_inside(corners, clipping_edge),
{
    let n = corners.len() as int;
    if no_corner_inside(corners, clipping_edge) {
        lemma_clipped_corners_none_inside(corners, clipping_edge, n);
    } else {
        let j = choose|j: int| 0 <= j < corners.len() && (#[trigger] corners[j]).inside(clipping_edge);
        let i = if j == 0 {
            n - 1
        } else {
            j - 1
        };
        assert(following(corners, i) == corners[j]);
        assert(corner_output(corners[i], following(corners, i), clipping_edge).len() > 0);
        lemma_clipped_corners_grow(corners, clipping_edge, i + 1, n);
    }
}

proof fn lemma_rotated_corners_inside(corners: Seq<Corner>, k: int, clipping_edge: Line)
    requires
        0 <= k < corners.len(),
        all_corners_inside(corners, clipping_edge),
    ensures
        all_corners_inside(rotated_corners(corners, k), clipping_edge),
{
    let turned = rotated_corners(corners, k);
    assert forall|j: int| 0 <= j < turned.len() implies (#[trigger] turned[j]).inside(clipping_edge) by {
        if j + k < corners.len() {
            assert(corners[j + k].inside(clipping_edge));
        } else {
            assert(corners[j + k - corners.len()].inside(clipping_edge));
        }
    }
}

proof fn lemma_rotated_corners_once_more(corners: Seq<Corner>, k: int)
    requires
        0 <= k < corners.len(),
    ensures
        rotated_corners(rotated_corners(corners, k), 1) == rotated_corners(
            corners,
            if k + 1 == corners.len() {
                0
            } else {
                k + 1
            },
        ),
{
    let n = corners.len() as int;
    let next = if k + 1 == n {
        0
    } else {
        k + 1
    };
    let left = rotated_corners(rotated_corners(corners, k), 1);
    let right = rotated_corners(corners, next);
    assert forall|j: int| 0 <= j < n implies left[j] == right[j] by {
        let inner = if j + 1 < n {
            j + 1
        } else {
            j + 1 - n
        };
        assert(left[j] == rotated_corners(corners, k)[inner]);
    }
    assert(left =~= right);
}

proof fn lemma_contained_steps(corners: Seq<Corner>, clipping_polygon: Seq<Point2d>, count: int)
    requires
        corners.len() > 0,
        0 <= count <= clipping_polygon.len(),
        forall|i: int|
            0 <= i < clipping_polygon.len() ==> all_corners_inside(
                corners,
                #[trigger] polygon_edge(clipping_polygon, i),
            ),
    ensures
        clipped_by(corners, clipping_polygon, count) == Some(
            rotated_corners(corners, count % (corners.len() as int)),
        ),
    decreases count,
{
    let n = corners.len() as int;
    if count > 0 {
        lemma_contained_steps(corners, clipping_polygon, count - 1);
        lemma_successor_mod(count - 1, n);
        let k = (count - 1) % n;
        let partial = rotated_corners(corners, k);
        let edge = polygon_edge(clipping_polygon, count - 1);
        assert(all_corners_inside(corners, edge));
        lemma_rotated_corners_inside(corners, k, edge);
        lemma_clipped_corners_all_inside(partial, edge, n);
        assert(rotated_corners(partial, 1).take(n) =~= rotated_corners(partial, 1));
        lemma_rotated_corners_once_more(corners, k);
    } else {
        lemma_successor_mod(0, n);
        assert(0int % n == 0) by (nonlinear_arith)
            requires
                n > 0,
        ;
        assert(rotated_corners(corners, 0) =~= corners);
    }
}

proof fn lemma_lattice_points_of_rotated(points: Seq<Point2d>, k: int, count: int)
    requires
        0 <= k < points.len(),
        0 <= count <= points.len(),
    ensures
        lattice_points(rotated_corners(polygon_corners(points), k), count) == rotated(points, k).take(count),
    decreases count,
{
    let corners = rotated_corners(polygon_corners(points), k);
    if count > 0 {
        lemma_lattice_points_of_rotated(points, k, count - 1);
        let j = count - 1;
        let index = if j + k < points.len() {
            j + k
        } else {
            j + k - points.len()
        };
        let before = if index == 0 {
            points.len() - 1
        } else {
            index - 1
        };
        assert(corners[j] == lattice_corner(points[before], points[index]));
        lemma_lattice_corner(points[before], points[index], Line { first: points[0], last: points[0] });
        assert(lattice_points(corners, count) =~= rotated(points, k).take(count));
    } else {
        assert(lattice_points(corners, count) =~= rotated(points, k).take(count));
    }
}

/// The corners of a polygon of lattice points lie where its vertices lie.
pub proof fn lemma_polygon_corners_inside(points: Seq<Point2d>, clipping_edge: Line)
    ensures
        all_inside(points, clipping_edge) ==> all_corners_inside(polygon_corners(points), clipping_edge),
        none_inside(points, clipping_edge) <==> no_corner_inside(polygon_corners(points), clipping_edge),
{
    let corners = polygon_corners(points);
    assert forall|j: int| 0 <= j < corners.len() implies (#[trigger] corners[j]).inside(clipping_edge)
        == is_inside(points[j], clipping_edge) by {
        let before = if j == 0 {
            points.len() - 1
        } else {
            j - 1
        };
        lemma_lattice_corner(points[before], points[j], clipping_edge);
    }
    if all_inside(points, clipping_edge) {
        assert forall|j: int| 0 <= j < corners.len() implies (#[trigger] corners[j]).inside(
            clipping_edge,
        ) by {
            assert(is_inside(points[j], clipping_edge));
        }
    }
    if none_inside(points, clipping_edge) {
        assert forall|j: int| 0 <= j < corners.len() implies !(#[trigger] corners[j]).inside(
            clipping_edge,
        ) by {
            assert(!is_inside(points[j], clipping_edge));
        }
    }
    if no_corner_inside(corners, clipping_edge) {
        assert forall|j: int| 0 <= j < points.len() implies !is_inside(#[trigger] points[j], clipping_edge) by {
            assert(!corners[j].inside(clipping_edge));
        }
    }
}

/// A polygon whose vertices all lie strictly on the inner side of every
/// edge of the clip polygon is returned with its colour and with its
/// vertices in the same cyclic order; the start moves on by one vertex for
/// each clipping edge.
pub proof fn lemma_sutherland_hodgman_contained(polygon: PolygonView, clipping_polygon: Seq<Point2d>)
    requires
        polygon.points.len() > 0,
        forall|i: int|
            0 <= i < clipping_polygon.len() ==> all_inside(
                polygon.points,
                #[trigger] polygon_edge(clipping_polygon, i),
            ),
    ensures
        sutherland_hodgman(polygon, clipping_polygon) == Some(
            PolygonView {
                points: rotated(
                    polygon.points,
                    (clipping_polygon.len() as int) % (polygon.points.len() as int),
                ),
                color: polygon.color,
            },
        ),
{
    let n = polygon.points.len() as int;
    let m = clipping_polygon.len() as int;
    let corners = polygon_corners(polygon.points);
    assert forall|i: int| 0 <= i < clipping_polygon.len() implies all_corners_inside(
        corners,
        #[trigger] polygon_edge(clipping_polygon, i),
    ) by {
        assert(all_inside(polygon.points, polygon_edge(clipping_polygon, i)));
        lemma_polygon_corners_inside(polygon.points, polygon_edge(clipping_polygon, i));
    }
    lemma_contained_steps(corners, clipping_polygon, m);
    lemma_successor_mod(m, n);
    lemma_lattice_points_of_rotated(polygon.points, m % n, n);
    assert(rotated(polygon.points, m % n).take(n) =~= rotated(polygon.points, m % n));
}

/// Clipping a contained polygon a second time against the same clip
/// polygon returns the same vertices in the same cyclic order and the same
/// colour.
pub proof fn lemma_sutherland_hodgman_contained_twice(polygon: PolygonView, clipping_polygon: Seq<Point2d>)
    requires
        polygon.points.len() > 0,
        forall|i: int|
            0 <= i < clipping_polygon.len() ==> all_inside(
                polygon.points,
                #[trigger] polygon_edge(clipping_polygon, i),
            ),
    ensures
        ({
            let n = polygon.points.len() as int;
            let m = clipping_polygon.len() as int;
            let once = sutherland_hodgman(polygon, clipping_polygon);
            &&& once matches Some(clipped)
            &&& sutherland_hodgman(clipped, clipping_polygon) == Some(
                PolygonView { points: rotated(clipped.points, m % n), color: polygon.color },
            )
        }),
{
    let n = polygon.points.len() as int;
    let m = clipping_polygon.len() as int;
    lemma_sutherland_hodgman_contained(polygon, clipping_polygon);
    let clipped = PolygonView { points: rotated(polygon.points, m % n), color: polygon.color };
    lemma_successor_mod(m, n);
    assert forall|i: int| 0 <= i < clipping_polygon.len() implies all_inside(
        clipped.points,
        #[trigger] polygon_edge(clipping_polygon, i),
    ) by {
        let edge = polygon_edge(clipping_polygon, i);
        assert(all_inside(polygon.points, edge));
        assert forall|j: int| 0 <= j < clipped.points.len() implies is_inside(
            #[trigger] clipped.points[j],
            edge,
        ) by {
            if j + m % n < n {
                assert(is_inside(polygon.points[j + m % n], edge));
            } else {
                assert(is_inside(polygon.points[j + m % n - n], edge));
            }
        }
    }
    lemma_sutherland_hodgman_contained(clipped, clipping_polygon);
}

/// Once an edge has left nothing, the following edges leave nothing.
pub proof fn lemma_clipped_by_stays_none(corners: Seq<Corner>, clipping_polygon: Seq<Point2d>, low: int, high: int)
    requires
        low <= high,
        clipped_by(corners, clipping_polygon, low).is_none(),
    ensures
        clipped_by(corners, clipping_polygon, high).is_none(),
    decreases high - low,
{
    if low < high {
        lemma_clipped_by_stays_none(corners, clipping_polygon, low, high - 1);
    }
}

} // verus!
