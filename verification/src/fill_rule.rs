//! The even-odd rule: which positions a filled polygon covers, stated
//! directly over the polygon's edges, and the proof that the scanline sweep
//! covers exactly these.

use vstd::prelude::*;
use crate::arith::{
    abs, between, lemma_trunc_div_add, lemma_trunc_div_bounds, lemma_trunc_div_same_ratio, trunc_div,
};
use crate::clipping::polygon_edge;
use crate::line::Line;
use crate::point2d::Point2d;
use crate::vector2d::cross_product;
use crate::polygon::{
    active_at, advanced, advanced_all, bucket_of, edge_entry, ends_not_below, highest_row, in_span,
    insert_sorted, is_horizontal, is_sorted_by_x, lemma_sorted_by_x, lower_end, lowest_row, row_spans,
    sorted_by_x, still_active, swept_pixels, upper_end, Fraction, LowerEndpointInc, SegmentDesc,
};

verus! {

/// Whether the scanline `row` meets the edge: the edge is not horizontal and
/// the row lies between its two ends, both included.
pub open spec fn meets_row(edge: Line, row: int) -> bool {
    !is_horizontal(edge) && lower_end(edge).y <= row <= upper_end(edge).y
}

/// The x coordinate at which the edge meets `row`: the exact coordinate,
/// with its fractional part dropped on the side of the edge's lower end.
pub open spec fn crossing_x(edge: Line, row: int) -> int {
    lower_end(edge).x + trunc_div(
        (row - lower_end(edge).y) * (upper_end(edge).x - lower_end(edge).x),
        upper_end(edge).y - lower_end(edge).y,
    )
}

/// How many of the first `count` edges of the polygon meet `row` at `x` or
/// left of it.
pub open spec fn crossings_up_to(points: Seq<Point2d>, row: int, x: int, count: int) -> nat
    decreases count,
{
    if count <= 0 {
        0
    } else {
        let edge = polygon_edge(points, count - 1);
        crossings_up_to(points, row, x, count - 1) + if meets_row(edge, row) && crossing_x(edge, row) <= x {
            1nat
        } else {
            0nat
        }
    }
}

/// How many of the first `count` edges of the polygon meet `row` right of
/// `x`.
pub open spec fn crossings_beyond(points: Seq<Point2d>, row: int, x: int, count: int) -> nat
    decreases count,
{
    if count <= 0 {
        0
    } else {
        let edge = polygon_edge(points, count - 1);
        crossings_beyond(points, row, x, count - 1) + if meets_row(edge, row) && crossing_x(edge, row) > x {
            1nat
        } else {
            0nat
        }
    }
}

/// The positions that filling the polygon covers, by the even-odd rule: a
/// position is covered when an odd number of edges meet its row at or left
/// of it and at least one edge meets the row right of it.
///
/// An edge meets the rows of both of its ends, so that a vertex counts once
/// for each of its two edges that is not horizontal.  A vertex where the
/// boundary passes upward from one edge to the next therefore counts twice
/// on its own row, and on that row the positions beside it are covered as if
/// the boundary did not pass there.
pub open spec fn fill_pixels(points: Seq<Point2d>) -> Set<(int, int)> {
    Set::new(
        |p: (int, int)|
            crossings_up_to(points, p.1, p.0, points.len() as int) % 2 == 1 && crossings_beyond(
                points,
                p.1,
                p.0,
                points.len() as int,
            ) > 0,
    )
}

/// How many items satisfy `f`.
pub open spec fn count_where(entries: Seq<SegmentDesc>, f: spec_fn(SegmentDesc) -> bool) -> nat
    decreases entries.len(),
{
    if entries.len() == 0 {
        0
    } else {
        count_where(entries.drop_last(), f) + if f(entries.last()) {
            1nat
        } else {
            0nat
        }
    }
}

/// Whether an entry meets the current row at `x` or left of it.
pub open spec fn at_or_left_of(x: int) -> spec_fn(SegmentDesc) -> bool {
    |entry: SegmentDesc| entry.x() <= x
}

/// Whether an entry meets the current row right of `x`.
pub open spec fn right_of(x: int) -> spec_fn(SegmentDesc) -> bool {
    |entry: SegmentDesc| entry.x() > x
}

proof fn lemma_count_push(entries: Seq<SegmentDesc>, entry: SegmentDesc, f: spec_fn(SegmentDesc) -> bool)
    ensures
        count_where(entries.push(entry), f) == count_where(entries, f) + if f(entry) {
            1nat
        } else {
            0nat
        },
{
    assert(entries.push(entry).drop_last() =~= entries);
}

proof fn lemma_count_add(a: Seq<SegmentDesc>, b: Seq<SegmentDesc>, f: spec_fn(SegmentDesc) -> bool)
    ensures
        count_where(a + b, f) == count_where(a, f) + count_where(b, f),
    decreases b.len(),
{
    if b.len() == 0 {
        assert(a + b =~= a);
    } else {
        lemma_count_add(a, b.drop_last(), f);
        assert((a + b).drop_last() =~= a + b.drop_last());
    }
}

proof fn lemma_count_range(entries: Seq<SegmentDesc>, f: spec_fn(SegmentDesc) -> bool)
    ensures
        count_where(entries, f) <= entries.len(),
        (forall|i: int| 0 <= i < entries.len() ==> f(#[trigger] entries[i])) ==> count_where(entries, f)
            == entries.len(),
    decreases entries.len(),
{
    if entries.len() > 0 {
        lemma_count_range(entries.drop_last(), f);
        if forall|i: int| 0 <= i < entries.len() ==> f(#[trigger] entries[i]) {
            assert forall|i: int| 0 <= i < entries.drop_last().len() implies f(
                #[trigger] entries.drop_last()[i],
            ) by {
                assert(f(entries[i]));
            }
            assert(f(entries[entries.len() - 1]));
        }
    }
}

proof fn lemma_count_split(entries: Seq<SegmentDesc>, x: int)
    ensures
        count_where(entries, at_or_left_of(x)) + count_where(entries, right_of(x)) == entries.len(),
    decreases entries.len(),
{
    if entries.len() > 0 {
        lemma_count_split(entries.drop_last(), x);
    }
}

proof fn lemma_count_insert(entries: Seq<SegmentDesc>, entry: SegmentDesc, f: spec_fn(SegmentDesc) -> bool)
    ensures
        count_where(insert_sorted(entries, entry), f) == count_where(entries, f) + if f(entry) {
            1nat
        } else {
            0nat
        },
    decreases entries.len(),
{
    if entries.len() == 0 {
        assert(seq![entry] =~= Seq::<SegmentDesc>::empty().push(entry));
        lemma_count_push(Seq::empty(), entry, f);
        assert(entries =~= Seq::empty());
    } else if entries.last().x() <= entry.x() {
        lemma_count_push(entries, entry, f);
    } else {
        lemma_count_insert(entries.drop_last(), entry, f);
        lemma_count_push(insert_sorted(entries.drop_last(), entry), entries.last(), f);
    }
}

proof fn lemma_count_sorted(entries: Seq<SegmentDesc>, f: spec_fn(SegmentDesc) -> bool)
    ensures
        count_where(sorted_by_x(entries), f) == count_where(entries, f),
    decreases entries.len(),
{
    if entries.len() > 0 {
        lemma_count_sorted(entries.drop_last(), f);
        lemma_count_insert(sorted_by_x(entries.drop_last()), entries.last(), f);
    }
}

proof fn lemma_count_filter(
    entries: Seq<SegmentDesc>,
    keep: spec_fn(SegmentDesc) -> bool,
    f: spec_fn(SegmentDesc) -> bool,
)
    ensures
        count_where(entries.filter(keep), f) == count_where(entries, |entry: SegmentDesc| keep(entry) && f(entry)),
    decreases entries.len(),
{
    reveal(Seq::filter);
    if entries.len() > 0 {
        lemma_count_filter(entries.drop_last(), keep, f);
        if keep(entries.last()) {
            lemma_count_push(entries.drop_last().filter(keep), entries.last(), f);
        }
    }
}

proof fn lemma_count_advanced(entries: Seq<SegmentDesc>, f: spec_fn(SegmentDesc) -> bool)
    ensures
        count_where(advanced_all(entries), f) == count_where(entries, |entry: SegmentDesc| f(advanced(entry))),
    decreases entries.len(),
{
    if entries.len() > 0 {
        lemma_count_advanced(entries.drop_last(), f);
        assert(advanced_all(entries).drop_last() =~= advanced_all(entries.drop_last()));
    } else {
        assert(advanced_all(entries) =~= Seq::empty());
    }
}

/// In an ascending sequence the items at or left of `x` are the first
/// ones: as many as there are such items.
proof fn lemma_sorted_prefix(entries: Seq<SegmentDesc>, x: int)
    requires
        is_sorted_by_x(entries),
    ensures
        forall|i: int|
            0 <= i < entries.len() ==> ((#[trigger] entries[i]).x() <= x <==> i < count_where(
                entries,
                at_or_left_of(x),
            )),
    decreases entries.len(),
{
    if entries.len() > 0 {
        let shorter = entries.drop_last();
        assert(is_sorted_by_x(shorter)) by {
            assert forall|i: int, j: int| 0 <= i <= j < shorter.len() implies shorter[i].x() <= shorter[j].x() by {
                assert(entries[i].x() <= entries[j].x());
            }
        }
        lemma_sorted_prefix(shorter, x);
        lemma_count_range(shorter, at_or_left_of(x));
        if entries.last().x() <= x {
            assert forall|i: int| 0 <= i < shorter.len() implies at_or_left_of(x)(#[trigger] shorter[i]) by {
                assert(entries[i].x() <= entries[entries.len() - 1].x());
            }
        }
        assert forall|i: int| 0 <= i < entries.len() implies ((#[trigger] entries[i]).x() <= x <==> i
            < count_where(entries, at_or_left_of(x))) by {
            if i < shorter.len() {
                assert(shorter[i] == entries[i]);
            }
        }
    }
}

/// On an ascending sequence of active edges, the spans between the first
/// and the second edge, the third and the fourth, and so on hold exactly the
/// positions with an odd number of edges at or left of them and at least
/// one edge right of them.
pub proof fn lemma_spans_even_odd(entries: Seq<SegmentDesc>, row: int, p: (int, int))
    requires
        is_sorted_by_x(entries),
    ensures
        row_spans(entries, row).contains(p) <==> (p.1 == row && count_where(entries, at_or_left_of(p.0)) % 2
            == 1 && count_where(entries, right_of(p.0)) > 0),
{
    let x = p.0;
    let m = count_where(entries, at_or_left_of(x)) as int;
    lemma_sorted_prefix(entries, x);
    lemma_count_split(entries, x);
    if p.1 == row {
        if exists|j: int| #[trigger] in_span(entries, j, x) {
            let j = choose|j: int| #[trigger] in_span(entries, j, x);
            assert(entries[2 * j].x() <= x);
            assert(!(entries[2 * j + 1].x() <= x));
            assert(m == 2 * j + 1);
        }
        if m % 2 == 1 && m < entries.len() {
            let j = (m - 1) / 2;
            assert(m == 2 * j + 1);
            assert(entries[2 * j].x() <= x);
            assert(!(entries[2 * j + 1].x() <= x));
            assert(in_span(entries, j, x));
        }
    }
}

/// The entry of an edge as it stands on `row`: the edge meets the row at
/// its crossing, and the remainder is what the exact crossing exceeds it by,
/// in units of one over the edge's height.
pub open spec fn entry_at(edge: Line, row: int) -> SegmentDesc {
    let lower = lower_end(edge);
    let upper = upper_end(edge);
    let height = upper.y - lower.y;
    let travelled = (row - lower.y) * (upper.x - lower.x);
    SegmentDesc {
        y_max: upper.y,
        lower_endpoint_x: LowerEndpointInc {
            increment: crossing_x(edge, row) as i64,
            fraction: Fraction {
                nominator: (travelled - trunc_div(travelled, height) * height) as i64,
                denominator: height as i64,
            },
        },
        slope_inv: Fraction { nominator: (upper.x - lower.x) as i64, denominator: height as i64 },
    }
}

/// The entries of those of the first `count` edges that meet `row`, in the
/// order of the edges.
pub open spec fn meeting_entries(points: Seq<Point2d>, row: int, count: int) -> Seq<SegmentDesc>
    decreases count,
{
    if count <= 0 {
        Seq::empty()
    } else {
        let rest = meeting_entries(points, row, count - 1);
        let edge = polygon_edge(points, count - 1);
        if meets_row(edge, row) {
            rest.push(entry_at(edge, row))
        } else {
            rest
        }
    }
}

/// The quotient and the rest of the distance that an edge has travelled
/// along x after `k` rows: both have the sign of the edge's run, the rest is
/// smaller than the edge's height, and the quotient is at most twice the run
/// while `k` is at most one more than the height.
proof fn lemma_travelled(k: int, run: int, height: int)
    requires
        0 <= k <= height + 1,
        height > 0,
    ensures
        ({
            let q = trunc_div(k * run, height);
            let r = k * run - q * height;
            &&& run >= 0 ==> 0 <= q && 0 <= r < height
            &&& run <= 0 ==> q <= 0 && -height < r <= 0
            &&& abs(q) <= 2 * abs(run)
            &&& k <= height ==> between(0, q, run)
        }),
{
    let t = k * run;
    let q = trunc_div(t, height);
    lemma_trunc_div_bounds(t, height);
    let aq = abs(q);
    let ar = abs(run);
    if run >= 0 {
        assert(0 <= t <= (height + 1) * run) by (nonlinear_arith)
            requires
                t == k * run,
                0 <= k <= height + 1,
                run >= 0,
        ;
        assert(q <= 2 * run) by (nonlinear_arith)
            requires
                q * height <= (height + 1) * run,
                height >= 1,
                run >= 0,
                q >= 0,
        ;
        if k <= height {
            assert(t <= height * run) by (nonlinear_arith)
                requires
                    t == k * run,
                    0 <= k <= height,
                    run >= 0,
            ;
            assert(q <= run) by (nonlinear_arith)
                requires
                    q * height <= height * run,
                    height >= 1,
            ;
        }
    } else {
        assert((height + 1) * run <= t <= 0) by (nonlinear_arith)
            requires
                t == k * run,
                0 <= k <= height + 1,
                run <= 0,
        ;
        assert(q >= 2 * run) by (nonlinear_arith)
            requires
                q * height >= (height + 1) * run,
                height >= 1,
                run <= 0,
                q <= 0,
        ;
        if k <= height {
            assert(t >= height * run) by (nonlinear_arith)
                requires
                    t == k * run,
                    0 <= k <= height,
                    run <= 0,
            ;
            assert(q >= run) by (nonlinear_arith)
                requires
                    q * height >= height * run,
                    height >= 1,
            ;
        }
    }
}

/// An edge meets a row between the x coordinates of its two ends.
pub proof fn lemma_crossing_between(edge: Line, row: int)
    requires
        meets_row(edge, row),
    ensures
        between(lower_end(edge).x as int, crossing_x(edge, row), upper_end(edge).x as int),
        entry_at(edge, row).x() == crossing_x(edge, row),
        entry_at(edge, row).y_max == upper_end(edge).y,
{
    lemma_travelled(
        row - lower_end(edge).y,
        upper_end(edge).x - lower_end(edge).x,
        upper_end(edge).y - lower_end(edge).y,
    );
}

/// On the row of its lower end an edge stands as its fresh entry.
proof fn lemma_entry_fresh(edge: Line)
    requires
        !is_horizontal(edge),
    ensures
        entry_at(edge, lower_end(edge).y as int) == edge_entry(edge),
{
    let run = upper_end(edge).x - lower_end(edge).x;
    let height = upper_end(edge).y - lower_end(edge).y;
    assert(0 * run == 0);
    lemma_trunc_div_bounds(0, height);
    assert(trunc_div(0, height) * height == 0);
    assert(trunc_div(0, height) == 0) by (nonlinear_arith)
        requires
            trunc_div(0, height) * height == 0,
            height > 0,
    ;
}

/// Moving the entry of an edge one row up gives the entry of the edge on
/// the next row.
proof fn lemma_entry_advanced(edge: Line, row: int)
    requires
        meets_row(edge, row),
    ensures
        advanced(entry_at(edge, row)) == entry_at(edge, row + 1),
{
    let lower = lower_end(edge);
    let upper = upper_end(edge);
    let run = upper.x - lower.x;
    let height = upper.y - lower.y;
    let k = row - lower.y;
    let t = k * run;
    let q = trunc_div(t, height);
    let r = t - q * height;
    lemma_travelled(k, run, height);
    lemma_travelled(k + 1, run, height);
    let total = r + run;
    let carry = trunc_div(total, height);
    lemma_trunc_div_add(q, total, height);
    assert((k + 1) * run == q * height + total) by (nonlinear_arith)
        requires
            r == k * run - q * height,
            total == r + run,
    ;
    let q_next = trunc_div((k + 1) * run, height);
    assert(q_next == q + carry);
    assert((k + 1) * run - q_next * height == total - carry * height) by (nonlinear_arith)
        requires
            (k + 1) * run == q * height + total,
            q_next == q + carry,
    ;
    let here = entry_at(edge, row);
    assert(here.lower_endpoint_x.fraction.denominator == height);
    assert(here.lower_endpoint_x.fraction.nominator == r);
    assert(here.slope_inv.nominator == run);
    assert(here.lower_endpoint_x.increment == lower.x + q);
    assert(row + 1 - lower.y == k + 1);
    let next = advanced(here);
    let there = entry_at(edge, row + 1);
    assert(next.lower_endpoint_x.increment == there.lower_endpoint_x.increment);
    assert(next.lower_endpoint_x.fraction.nominator == there.lower_endpoint_x.fraction.nominator);
}

proof fn lemma_row_bounds(points: Seq<Point2d>, i: int)
    requires
        0 <= i < points.len(),
    ensures
        lowest_row(points) <= points[i].y <= highest_row(points),
    decreases points.len(),
{
    if points.len() > 1 {
        if i < points.len() - 1 {
            lemma_row_bounds(points.drop_last(), i);
        }
    }
}

/// No edge meets a row below the lowest or above the highest vertex.
proof fn lemma_nothing_outside(points: Seq<Point2d>, row: int, count: int, x: int)
    requires
        0 <= count <= points.len(),
        row < lowest_row(points) || row > highest_row(points),
    ensures
        meeting_entries(points, row, count) == Seq::<SegmentDesc>::empty(),
        crossings_beyond(points, row, x, count) == 0,
        crossings_up_to(points, row, x, count) == 0,
    decreases count,
{
    if count > 0 {
        lemma_nothing_outside(points, row, count - 1, x);
        let edge = polygon_edge(points, count - 1);
        lemma_row_bounds(points, count - 1);
        lemma_row_bounds(
            points,
            if count == points.len() {
                0
            } else {
                count
            },
        );
    }
}

/// What an entry of the row before has to satisfy so that, moved up, it is
/// still active on `row` and satisfies `f`.
spec fn carried_over(row: int, f: spec_fn(SegmentDesc) -> bool) -> spec_fn(SegmentDesc) -> bool {
    |entry: SegmentDesc| ends_not_below(row)(advanced(entry)) && f(advanced(entry))
}

proof fn lemma_meeting_step(points: Seq<Point2d>, row: int, count: int, f: spec_fn(SegmentDesc) -> bool)
    requires
        0 <= count <= points.len(),
    ensures
        count_where(meeting_entries(points, row - 1, count), carried_over(row, f)) + count_where(
            bucket_of(points, row, count),
            f,
        ) == count_where(meeting_entries(points, row, count), f),
    decreases count,
{
    if count > 0 {
        lemma_meeting_step(points, row, count - 1, f);
        let edge = polygon_edge(points, count - 1);
        let g = carried_over(row, f);
        if meets_row(edge, row - 1) {
            lemma_entry_advanced(edge, row - 1);
            lemma_count_push(meeting_entries(points, row - 1, count - 1), entry_at(edge, row - 1), g);
            assert(advanced(entry_at(edge, row - 1)).y_max == upper_end(edge).y);
            if meets_row(edge, row) {
                lemma_count_push(meeting_entries(points, row, count - 1), entry_at(edge, row), f);
            }
        } else if meets_row(edge, row) {
            lemma_entry_fresh(edge);
            lemma_count_insert(bucket_of(points, row, count - 1), edge_entry(edge), f);
            lemma_count_push(meeting_entries(points, row, count - 1), entry_at(edge, row), f);
        }
    }
}

/// The active edges of a row are, in some order, the entries of the edges
/// that meet the row: whatever is counted, both give the same number.
proof fn lemma_active_same(points: Seq<Point2d>, row: int)
    ensures
        forall|f: spec_fn(SegmentDesc) -> bool| #[trigger]
            count_where(active_at(points, row), f) == count_where(
                meeting_entries(points, row, points.len() as int),
                f,
            ),
    decreases row - lowest_row(points) + 1,
{
    let n = points.len() as int;
    if row < lowest_row(points) {
        lemma_nothing_outside(points, row, n, 0);
    } else {
        lemma_active_same(points, row - 1);
        let before = active_at(points, row - 1);
        let moved = advanced_all(before);
        let kept = still_active(moved, row);
        let bucket = bucket_of(points, row, n);
        assert forall|f: spec_fn(SegmentDesc) -> bool| #[trigger]
            count_where(active_at(points, row), f) == count_where(meeting_entries(points, row, n), f) by {
            let keep = ends_not_below(row);
            let both = |entry: SegmentDesc| keep(entry) && f(entry);
            let g = carried_over(row, f);
            lemma_count_sorted(kept + bucket, f);
            lemma_count_add(kept, bucket, f);
            lemma_count_filter(moved, keep, f);
            lemma_count_advanced(before, both);
            assert((|entry: SegmentDesc| both(advanced(entry))) =~= g);
            assert(count_where(before, g) == count_where(meeting_entries(points, row - 1, n), g));
            lemma_meeting_step(points, row, n, f);
        }
    }
}

proof fn lemma_crossings_counted(points: Seq<Point2d>, row: int, x: int, count: int)
    requires
        0 <= count <= points.len(),
    ensures
        count_where(meeting_entries(points, row, count), at_or_left_of(x)) == crossings_up_to(
            points,
            row,
            x,
            count,
        ),
        count_where(meeting_entries(points, row, count), right_of(x)) == crossings_beyond(
            points,
            row,
            x,
            count,
        ),
    decreases count,
{
    if count > 0 {
        lemma_crossings_counted(points, row, x, count - 1);
        let edge = polygon_edge(points, count - 1);
        if meets_row(edge, row) {
            lemma_crossing_between(edge, row);
            lemma_count_push(meeting_entries(points, row, count - 1), entry_at(edge, row), at_or_left_of(x));
            lemma_count_push(meeting_entries(points, row, count - 1), entry_at(edge, row), right_of(x));
        }
    }
}

/// The spans that the sweep fills on a row hold exactly the positions that
/// the even-odd rule covers on that row.
pub proof fn lemma_row_even_odd(points: Seq<Point2d>, row: int, p: (int, int))
    ensures
        row_spans(active_at(points, row), row).contains(p) <==> (p.1 == row && fill_pixels(points).contains(p)),
{
    let n = points.len() as int;
    let active = active_at(points, row);
    if row >= lowest_row(points) {
        lemma_sorted_by_x(
            still_active(advanced_all(active_at(points, row - 1)), row) + bucket_of(points, row, n),
        );
    }
    lemma_spans_even_odd(active, row, p);
    lemma_active_same(points, row);
    assert(count_where(active, at_or_left_of(p.0)) == count_where(
        meeting_entries(points, row, n),
        at_or_left_of(p.0),
    ));
    assert(count_where(active, right_of(p.0)) == count_where(meeting_entries(points, row, n), right_of(p.0)));
    lemma_crossings_counted(points, row, p.0, n);
}

/// The scanline sweep covers exactly the positions of the even-odd rule.
pub proof fn lemma_sweep_even_odd(points: Seq<Point2d>)
    ensures
        swept_pixels(points) == fill_pixels(points),
{
    let n = points.len() as int;
    assert forall|p: (int, int)| swept_pixels(points).contains(p) <==> fill_pixels(points).contains(p) by {
        lemma_row_even_odd(points, p.1, p);
        if n == 0 {
            assert(crossings_beyond(points, p.1, p.0, n) == 0);
        } else if p.1 < lowest_row(points) || p.1 > highest_row(points) {
            lemma_nothing_outside(points, p.1, n, p.0);
        }
    }
    assert(swept_pixels(points) =~= fill_pixels(points));
}

/// Whether the three points lie on one line.
pub open spec fn collinear(a: Point2d, b: Point2d, c: Point2d) -> bool {
    cross_product(b.x - a.x, b.y - a.y, c.x - a.x, c.y - a.y) == 0
}

/// Whether all vertices lie on one line: the polygon has no area.
pub open spec fn all_collinear(points: Seq<Point2d>) -> bool {
    forall|i: int, j: int, k: int|
        0 <= i < points.len() && 0 <= j < points.len() && 0 <= k < points.len() ==> collinear(
            #[trigger] points[i],
            #[trigger] points[j],
            #[trigger] points[k],
        )
}

/// Two edges on one line meet a row at the same x, where the lower end of
/// the first is not above the lower end of the second.
proof fn lemma_same_crossing_ordered(first: Line, second: Line, row: int)
    requires
        meets_row(first, row),
        meets_row(second, row),
        lower_end(first).y <= lower_end(second).y,
        collinear(lower_end(first), upper_end(first), lower_end(second)),
        collinear(lower_end(first), upper_end(first), upper_end(second)),
    ensures
        crossing_x(first, row) == crossing_x(second, row),
{
    let l1 = lower_end(first);
    let u1 = upper_end(first);
    let l2 = lower_end(second);
    let u2 = upper_end(second);
    let run1 = u1.x - l1.x;
    let h1 = u1.y - l1.y;
    let run2 = u2.x - l2.x;
    let h2 = u2.y - l2.y;
    let d = l2.x - l1.x;
    let m = l2.y - l1.y;
    let k2 = row - l2.y;
    let k1 = row - l1.y;
    assert(d * h1 == m * run1) by (nonlinear_arith)
        requires
            run1 * m - h1 * d == 0,
    ;
    assert(run2 * h1 == h2 * run1) by (nonlinear_arith)
        requires
            run1 * (u2.y - l1.y) - h1 * (u2.x - l1.x) == 0,
            run1 * m - h1 * d == 0,
            run2 == (u2.x - l1.x) - d,
            h2 == (u2.y - l1.y) - m,
    ;
    assert((k2 * run2) * h1 == (k2 * run1) * h2) by (nonlinear_arith)
        requires
            run2 * h1 == h2 * run1,
    ;
    lemma_trunc_div_same_ratio(k2 * run2, h2, k2 * run1, h1);
    assert(k1 * run1 == d * h1 + k2 * run1) by (nonlinear_arith)
        requires
            k1 == m + k2,
            d * h1 == m * run1,
    ;
    assert((d >= 0 && k2 * run1 >= 0) || (d <= 0 && k2 * run1 <= 0)) by (nonlinear_arith)
        requires
            d * h1 == m * run1,
            h1 > 0,
            m >= 0,
            k2 >= 0,
    ;
    lemma_trunc_div_add(d, k2 * run1, h1);
}

/// Two edges on one line meet a row at the same x.
proof fn lemma_same_crossing(first: Line, second: Line, row: int)
    requires
        meets_row(first, row),
        meets_row(second, row),
        collinear(lower_end(first), upper_end(first), lower_end(second)),
        collinear(lower_end(first), upper_end(first), upper_end(second)),
        collinear(lower_end(second), upper_end(second), lower_end(first)),
        collinear(lower_end(second), upper_end(second), upper_end(first)),
    ensures
        crossing_x(first, row) == crossing_x(second, row),
{
    if lower_end(first).y <= lower_end(second).y {
        lemma_same_crossing_ordered(first, second, row);
    } else {
        lemma_same_crossing_ordered(second, first, row);
    }
}

proof fn lemma_crossing_witnesses(points: Seq<Point2d>, row: int, x: int, count: int)
    requires
        0 <= count <= points.len(),
    ensures
        crossings_up_to(points, row, x, count) > 0 ==> exists|i: int|
            0 <= i < count && meets_row(#[trigger] polygon_edge(points, i), row) && crossing_x(
                polygon_edge(points, i),
                row,
            ) <= x,
        crossings_beyond(points, row, x, count) > 0 ==> exists|i: int|
            0 <= i < count && meets_row(#[trigger] polygon_edge(points, i), row) && crossing_x(
                polygon_edge(points, i),
                row,
            ) > x,
    decreases count,
{
    if count > 0 {
        lemma_crossing_witnesses(points, row, x, count - 1);
        let edge = polygon_edge(points, count - 1);
        if crossings_up_to(points, row, x, count) > 0 {
            if crossings_up_to(points, row, x, count - 1) > 0 {
                let i = choose|i: int|
                    0 <= i < count - 1 && meets_row(#[trigger] polygon_edge(points, i), row) && crossing_x(
                        polygon_edge(points, i),
                        row,
                    ) <= x;
                assert(meets_row(polygon_edge(points, i), row));
            } else {
                assert(meets_row(polygon_edge(points, count - 1), row));
            }
        }
        if crossings_beyond(points, row, x, count) > 0 {
            if crossings_beyond(points, row, x, count - 1) > 0 {
                let i = choose|i: int|
                    0 <= i < count - 1 && meets_row(#[trigger] polygon_edge(points, i), row) && crossing_x(
                        polygon_edge(points, i),
                        row,
                    ) > x;
                assert(meets_row(polygon_edge(points, i), row));
            } else {
                assert(meets_row(polygon_edge(points, count - 1), row));
            }
        }
    }
}

/// Filling a polygon whose vertices all lie on one line covers nothing.
pub proof fn lemma_collinear_fills_nothing(points: Seq<Point2d>)
    requires
        all_collinear(points),
    ensures
        fill_pixels(points) == Set::<(int, int)>::empty(),
{
    let n = points.len() as int;
    assert forall|p: (int, int)| !fill_pixels(points).contains(p) by {
        lemma_crossing_witnesses(points, p.1, p.0, n);
        if crossings_up_to(points, p.1, p.0, n) > 0 && crossings_beyond(points, p.1, p.0, n) > 0 {
            let i = choose|i: int|
                0 <= i < n && meets_row(#[trigger] polygon_edge(points, i), p.1) && crossing_x(
                    polygon_edge(points, i),
                    p.1,
                ) <= p.0;
            let j = choose|j: int|
                0 <= j < n && meets_row(#[trigger] polygon_edge(points, j), p.1) && crossing_x(
                    polygon_edge(points, j),
                    p.1,
                ) > p.0;
            let first = polygon_edge(points, i);
            let second = polygon_edge(points, j);
            let i_next = if i + 1 == n {
                0
            } else {
                i + 1
            };
            let j_next = if j + 1 == n {
                0
            } else {
                j + 1
            };
            assert(collinear(points[i], points[i_next], points[j]));
            assert(collinear(points[i], points[i_next], points[j_next]));
            assert(collinear(points[i_next], points[i], points[j]));
            assert(collinear(points[i_next], points[i], points[j_next]));
            assert(collinear(points[j], points[j_next], points[i]));
            assert(collinear(points[j], points[j_next], points[i_next]));
            assert(collinear(points[j_next], points[j], points[i]));
            assert(collinear(points[j_next], points[j], points[i_next]));
            lemma_same_crossing(first, second, p.1);
        }
    }
    assert(fill_pixels(points) =~= Set::<(int, int)>::empty());
}

} // verus!
