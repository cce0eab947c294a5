//! Polygons and the scanline sweep that fills them: the edge table, the
//! active edges of a row, and the sweep as a model.

use std::collections::HashMap;
use vstd::prelude::*;
use crate::arith::{abs, div_trunc, lemma_trunc_div_bounds, trunc_div};
use crate::clipping::polygon_edge;
use crate::draw::Draw;
use crate::fill_rule::{fill_pixels, lemma_sweep_even_odd};
use crate::line::Line;
use crate::pixel_color::PixelColor;
use crate::point2d::Point2d;
use crate::raw_canvas::RawCanvas;

verus! {

broadcast use vstd::std_specs::hash::group_hash_axioms;

/// A polygon: its vertices in winding order and its fill colour.  The last
/// vertex is joined to the first.
#[derive(Debug)]
pub struct Polygon {
    points: Vec<Point2d>,
    color: PixelColor,
}

/// The mathematical model of a polygon.
pub struct PolygonView {
    pub points: Seq<Point2d>,
    pub color: PixelColor,
}

impl View for Polygon {
    type V = PolygonView;

    closed spec fn view(&self) -> PolygonView {
        PolygonView { points: self.points@, color: self.color }
    }
}

/// The model of a result that may hold a polygon.
pub open spec fn view_of(result: Option<Polygon>) -> Option<PolygonView> {
    match result {
        Some(polygon) => Some(polygon@),
        None => None,
    }
}

impl Clone for Polygon {
    fn clone(&self) -> (copy: Polygon)
        ensures
            copy@ == self@,
    {
        let mut points: Vec<Point2d> = Vec::new();
        let mut i: usize = 0;
        while i < self.points.len()
            invariant
                0 <= i <= self.points.len(),
                points@ == self.points@.take(i as int),
            decreases self.points.len() - i,
        {
            points.push(self.points[i]);
            assert(self.points@.take(i + 1) =~= self.points@.take(i as int).push(self.points@[i as int]));
            i = i + 1;
        }
        assert(self.points@.take(self.points.len() as int) =~= self.points@);
        Polygon { points, color: self.color }
    }
}

impl Polygon {
    pub fn new(color: PixelColor, points: Vec<Point2d>) -> (polygon: Polygon)
        ensures
            polygon@ == (PolygonView { points: points@, color }),
    {
        Polygon { color, points }
    }

    /// The vertices in winding order.
    pub fn get_points(&self) -> (points: &Vec<Point2d>)
        ensures
            points@ == self@.points,
    {
        &self.points
    }

    /// The fill colour.
    pub fn get_color(&self) -> (color: PixelColor)
        ensures
            color == self@.color,
    {
        self.color
    }
}

/// An exact fraction of two integers.
#[derive(Clone, Copy, Debug, PartialEq, Eq, Structural)]
pub struct Fraction {
    pub nominator: i64,
    pub denominator: i64,
}

/// The x coordinate at which an edge meets the current scanline: an integer
/// and the remainder that has not yet been carried into it.
#[derive(Clone, Copy, Debug, PartialEq, Eq, Structural)]
pub struct LowerEndpointInc {
    pub increment: i64,
    pub fraction: Fraction,
}

/// One polygon edge as the scanline sweep sees it: the last row on which
/// the edge is active, where it meets the current row, and how far it moves
/// along x from one row to the next.
///
/// An edge is active from the row of its lower end to the row of its upper
/// end, both included.  A vertex where one edge ends and the next begins is
/// therefore met by both, at the same x.
#[derive(Clone, Copy, Debug, PartialEq, Eq, Structural)]
pub struct SegmentDesc {
    pub y_max: i32,
    pub lower_endpoint_x: LowerEndpointInc,
    pub slope_inv: Fraction,
}

impl SegmentDesc {
    /// The integer x coordinate at which the edge meets the current row.
    pub open spec fn x(self) -> int {
        self.lower_endpoint_x.increment as int
    }
}

/// Whether the edge runs along a row and therefore starts no active range.
pub open spec fn is_horizontal(edge: Line) -> bool {
    edge.first.y == edge.last.y
}

/// The end point of the edge with the smaller y.
pub open spec fn lower_end(edge: Line) -> Point2d {
    if edge.first.y < edge.last.y {
        edge.first
    } else {
        edge.last
    }
}

/// The end point of the edge with the larger y.
pub open spec fn upper_end(edge: Line) -> Point2d {
    if edge.first.y < edge.last.y {
        edge.last
    } else {
        edge.first
    }
}

/// The entry of an edge that is not horizontal, as it stands on the row of
/// the edge's lower end: the edge is active up to the row of its upper end,
/// it meets the first row at the lower end's x, no remainder has built up,
/// and the x moves by `dx / dy` per row.
pub open spec fn edge_entry(edge: Line) -> SegmentDesc {
    let lower = lower_end(edge);
    let upper = upper_end(edge);
    SegmentDesc {
        y_max: upper.y,
        lower_endpoint_x: LowerEndpointInc {
            increment: lower.x as i64,
            fraction: Fraction { nominator: 0, denominator: (upper.y - lower.y) as i64 },
        },
        slope_inv: Fraction {
            nominator: (upper.x - lower.x) as i64,
            denominator: (upper.y - lower.y) as i64,
        },
    }
}

/// The sequence with `entry` put in behind the last item whose x is not
/// larger.
pub open spec fn insert_sorted(entries: Seq<SegmentDesc>, entry: SegmentDesc) -> Seq<SegmentDesc>
    decreases entries.len(),
{
    if entries.len() == 0 {
        seq![entry]
    } else if entries.last().x() <= entry.x() {
        entries.push(entry)
    } else {
        insert_sorted(entries.drop_last(), entry).push(entries.last())
    }
}

/// The items in ascending order of x; items of equal x keep their order.
pub open spec fn sorted_by_x(entries: Seq<SegmentDesc>) -> Seq<SegmentDesc>
    decreases entries.len(),
{
    if entries.len() == 0 {
        Seq::empty()
    } else {
        insert_sorted(sorted_by_x(entries.drop_last()), entries.last())
    }
}

/// Whether the items are in ascending order of x.
pub open spec fn is_sorted_by_x(entries: Seq<SegmentDesc>) -> bool {
    forall|i: int, j: int| 0 <= i <= j < entries.len() ==> entries[i].x() <= entries[j].x()
}

/// Putting an item in keeps every item, adds the one, and keeps an
/// ascending sequence ascending.
pub proof fn lemma_insert_sorted(entries: Seq<SegmentDesc>, entry: SegmentDesc)
    ensures
        insert_sorted(entries, entry).len() == entries.len() + 1,
        is_sorted_by_x(entries) ==> is_sorted_by_x(insert_sorted(entries, entry)),
        forall|i: int|
            0 <= i < entries.len() + 1 ==> (#[trigger] insert_sorted(entries, entry)[i] == entry
                || entries.contains(insert_sorted(entries, entry)[i])),
    decreases entries.len(),
{
    let result = insert_sorted(entries, entry);
    if entries.len() == 0 {
        assert(entries =~= Seq::empty());
        assert(result =~= Seq::<SegmentDesc>::empty().push(entry));
    } else if entries.last().x() <= entry.x() {
        assert forall|i: int| 0 <= i < entries.len() + 1 implies (#[trigger] result[i] == entry
            || entries.contains(result[i])) by {
            if i < entries.len() {
                assert(entries[i] == result[i]);
            }
        }
    } else {
        let shorter = entries.drop_last();
        let inner = insert_sorted(shorter, entry);
        lemma_insert_sorted(shorter, entry);
        assert(entries =~= shorter.push(entries.last()));
        assert forall|i: int| 0 <= i < entries.len() + 1 implies (#[trigger] result[i] == entry
            || entries.contains(result[i])) by {
            if i < inner.len() {
                assert(result[i] == inner[i]);
                if inner[i] != entry {
                    assert(shorter.contains(inner[i]));
                    let k = choose|k: int| 0 <= k < shorter.len() && shorter[k] == inner[i];
                    assert(entries[k] == inner[i]);
                }
            } else {
                assert(result[i] == entries[entries.len() - 1]);
            }
        }
        if is_sorted_by_x(entries) {
            assert(is_sorted_by_x(shorter)) by {
                assert forall|i: int, j: int| 0 <= i <= j < shorter.len() implies shorter[i].x()
                    <= shorter[j].x() by {
                    assert(entries[i].x() <= entries[j].x());
                }
            }
            assert forall|i: int, j: int| 0 <= i <= j < result.len() implies result[i].x() <= result[j].x() by {
                if j < inner.len() {
                    assert(inner[i].x() <= inner[j].x());
                } else if i < inner.len() {
                    assert(result[i] == inner[i]);
                    if inner[i] != entry {
                        assert(shorter.contains(inner[i]));
                        let k = choose|k: int| 0 <= k < shorter.len() && shorter[k] == inner[i];
                        assert(entries[k].x() <= entries[entries.len() - 1].x());
                    }
                }
            }
        }
    }
}

/// Sorting keeps every item and puts the items in ascending order of x.
pub proof fn lemma_sorted_by_x(entries: Seq<SegmentDesc>)
    ensures
        sorted_by_x(entries).len() == entries.len(),
        is_sorted_by_x(sorted_by_x(entries)),
        forall|i: int| 0 <= i < entries.len() ==> entries.contains(#[trigger] sorted_by_x(entries)[i]),
    decreases entries.len(),
{
    if entries.len() == 0 {
        assert(entries =~= Seq::empty());
    } else {
        let shorter = entries.drop_last();
        lemma_sorted_by_x(shorter);
        lemma_insert_sorted(sorted_by_x(shorter), entries.last());
        assert(entries =~= shorter.push(entries.last()));
        let result = sorted_by_x(entries);
        assert forall|i: int| 0 <= i < entries.len() implies entries.contains(#[trigger] result[i]) by {
            if result[i] == entries.last() {
                assert(entries[entries.len() - 1] == result[i]);
            } else {
                assert(sorted_by_x(shorter).contains(result[i]));
                let k = choose|k: int| 0 <= k < shorter.len() && sorted_by_x(shorter)[k] == result[i];
                assert(shorter.contains(sorted_by_x(shorter)[k]));
                let m = choose|m: int| 0 <= m < shorter.len() && shorter[m] == result[i];
                assert(entries[m] == result[i]);
            }
        }
    }
}

/// Puts `entry` into the vector behind the last item whose x is not larger.
pub fn insert_by_x(entries: &mut Vec<SegmentDesc>, entry: SegmentDesc)
    ensures
        final(entries)@ == insert_sorted(old(entries)@, entry),
{
    let ghost before = entries@;
    let mut position: usize = entries.len();
    proof {
        assert(before.take(before.len() as int) =~= before);
        assert(insert_sorted(before, entry) + before.skip(before.len() as int) =~= insert_sorted(
            before,
            entry,
        ));
    }
    while position > 0 && entries[position - 1].lower_endpoint_x.increment > entry.lower_endpoint_x.increment
        invariant
            entries@ == before,
            0 <= position <= before.len(),
            insert_sorted(before, entry) == insert_sorted(before.take(position as int), entry) + before.skip(
                position as int,
            ),
        decreases position,
    {
        proof {
            let prefix = before.take(position as int);
            assert(prefix.last() == before[position - 1]);
            assert(prefix.drop_last() =~= before.take(position - 1));
            assert(insert_sorted(prefix, entry) == insert_sorted(before.take(position - 1), entry).push(
                before[position - 1],
            ));
            assert(insert_sorted(before.take(position - 1), entry).push(before[position - 1]) + before.skip(
                position as int,
            ) =~= insert_sorted(before.take(position - 1), entry) + before.skip(position - 1));
        }
        position = position - 1;
    }
    proof {
        let prefix = before.take(position as int);
        if position > 0 {
            assert(prefix.last() == before[position - 1]);
        }
        assert(insert_sorted(prefix, entry) == prefix.push(entry)) by {
            if position == 0 {
                assert(prefix.push(entry) =~= seq![entry]);
            }
        }
        assert(before.take(before.len() as int) =~= before);
        assert(before.skip(before.len() as int) =~= Seq::empty());
    }
    entries.insert(position, entry);
    assert(entries@ =~= before.take(position as int).push(entry) + before.skip(position as int));
}

/// The entries that the first `count` edges of the polygon put on `row`:
/// the entry of every edge that is not horizontal and has its lower end on
/// that row, in ascending order of x.
pub open spec fn bucket_of(points: Seq<Point2d>, row: int, count: int) -> Seq<SegmentDesc>
    decreases count,
{
    if count <= 0 {
        Seq::empty()
    } else {
        let rest = bucket_of(points, row, count - 1);
        let edge = polygon_edge(points, count - 1);
        if !is_horizontal(edge) && lower_end(edge).y == row {
            insert_sorted(rest, edge_entry(edge))
        } else {
            rest
        }
    }
}

/// The edges of a polygon, indexed by the row on which each becomes active.
pub struct EdgeTable {
    rows: HashMap<i32, Vec<SegmentDesc>>,
}

/// What a map of rows holds for `row`: nothing where the row has no key.
pub open spec fn row_entries(rows: Map<i32, Vec<SegmentDesc>>, row: i32) -> Seq<SegmentDesc> {
    if rows.contains_key(row) {
        rows[row]@
    } else {
        Seq::empty()
    }
}

impl EdgeTable {
    /// The entries that become active on `row`, in ascending order of x.
    pub closed spec fn bucket(&self, row: i32) -> Seq<SegmentDesc> {
        row_entries(self.rows@, row)
    }

    /// Builds the table of a polygon from its vertices.  Horizontal edges
    /// are left out.
    pub fn from_points(points: &Vec<Point2d>) -> (table: EdgeTable)
        ensures
            forall|row: i32| #[trigger] table.bucket(row) == bucket_of(points@, row as int, points@.len() as int),
    {
        let mut rows: HashMap<i32, Vec<SegmentDesc>> = HashMap::new();
        let length = points.len();
        let mut i: usize = 0;
        while i < length
            invariant
                length == points@.len(),
                0 <= i <= length,
                forall|row: i32| #[trigger] row_entries(rows@, row) == bucket_of(points@, row as int, i as int),
            decreases length - i,
        {
            let next: usize = if i == length - 1 {
                0
            } else {
                i + 1
            };
            let first_point = points[i];
            let second_point = points[next];
            let ghost edge = polygon_edge(points@, i as int);
            assert(edge == Line { first: first_point, last: second_point });
            if first_point.y != second_point.y {
                let lower = if first_point.y < second_point.y {
                    first_point
                } else {
                    second_point
                };
                let upper = if first_point.y < second_point.y {
                    second_point
                } else {
                    first_point
                };
                let denominator: i64 = upper.y as i64 - lower.y as i64;
                let nominator: i64 = upper.x as i64 - lower.x as i64;
                let desc = SegmentDesc {
                    y_max: upper.y,
                    lower_endpoint_x: LowerEndpointInc {
                        increment: lower.x as i64,
                        fraction: Fraction { nominator: 0, denominator },
                    },
                    slope_inv: Fraction { nominator, denominator },
                };
                assert(desc == edge_entry(edge));
                let ghost rows_before = rows@;
                let mut row: Vec<SegmentDesc> = match rows.remove(&lower.y) {
                    Some(existing) => existing,
                    None => Vec::new(),
                };
                assert(row@ == row_entries(rows_before, lower.y));
                insert_by_x(&mut row, desc);
                rows.insert(lower.y, row);
                assert forall|r: i32| #[trigger] row_entries(rows@, r) == bucket_of(
                    points@,
                    r as int,
                    i + 1,
                ) by {
                    assert(row_entries(rows_before, r) == bucket_of(points@, r as int, i as int));
                }
            } else {
                assert forall|r: i32| #[trigger] row_entries(rows@, r) == bucket_of(
                    points@,
                    r as int,
                    i + 1,
                ) by {
                    assert(row_entries(rows@, r) == bucket_of(points@, r as int, i as int));
                }
            }
            i = i + 1;
        }
        EdgeTable { rows }
    }

    /// A copy of the entries that become active on `y`.
    pub fn row(&self, y: i32) -> (entries: Vec<SegmentDesc>)
        ensures
            entries@ == self.bucket(y),
    {
        let mut entries: Vec<SegmentDesc> = Vec::new();
        match self.rows.get(&y) {
            None => {},
            Some(row) => {
                let mut i: usize = 0;
                while i < row.len()
                    invariant
                        0 <= i <= row.len(),
                        entries@ == row@.take(i as int),
                    decreases row.len() - i,
                {
                    entries.push(row[i]);
                    assert(row@.take(i + 1) =~= row@.take(i as int).push(row@[i as int]));
                    i = i + 1;
                }
                assert(row@.take(row.len() as int) =~= row@);
            },
        }
        entries
    }
}

/// The entry one row further up: the slope is added to the remainder, and
/// the whole units that the remainder then holds are carried into the
/// integer x, so that the remainder stays smaller than the denominator.  An
/// entry without a positive denominator stays as it is.
pub open spec fn advanced(entry: SegmentDesc) -> SegmentDesc {
    let denominator = entry.lower_endpoint_x.fraction.denominator;
    if denominator > 0 {
        let total = entry.lower_endpoint_x.fraction.nominator + entry.slope_inv.nominator;
        let carry = trunc_div(total, denominator as int);
        SegmentDesc {
            lower_endpoint_x: LowerEndpointInc {
                increment: (entry.lower_endpoint_x.increment + carry) as i64,
                fraction: Fraction { nominator: (total - carry * denominator) as i64, denominator },
            },
            ..entry
        }
    } else {
        entry
    }
}

/// Every entry moved one row up.
pub open spec fn advanced_all(entries: Seq<SegmentDesc>) -> Seq<SegmentDesc> {
    entries.map_values(|entry: SegmentDesc| advanced(entry))
}

/// Whether an entry's last row is not below `row`.
pub open spec fn ends_not_below(row: int) -> spec_fn(SegmentDesc) -> bool {
    |entry: SegmentDesc| entry.y_max >= row
}

/// The entries whose last row is not below `row`, in their order.
pub open spec fn still_active(entries: Seq<SegmentDesc>, row: int) -> Seq<SegmentDesc> {
    entries.filter(ends_not_below(row))
}

/// Whether the entry can move one row up within the range of its integers.
pub open spec fn can_advance(entry: SegmentDesc) -> bool {
    let denominator = entry.lower_endpoint_x.fraction.denominator;
    denominator > 0 ==> {
        let total = entry.lower_endpoint_x.fraction.nominator + entry.slope_inv.nominator;
        &&& i64::MIN <= total <= i64::MAX
        &&& i64::MIN <= entry.lower_endpoint_x.increment + trunc_div(total, denominator as int) <= i64::MAX
    }
}

/// Moves an entry one row up.
pub fn advance(entry: SegmentDesc) -> (next: SegmentDesc)
    requires
        can_advance(entry),
    ensures
        next == advanced(entry),
{
    let denominator = entry.lower_endpoint_x.fraction.denominator;
    if denominator > 0 {
        let total: i64 = entry.lower_endpoint_x.fraction.nominator + entry.slope_inv.nominator;
        let carry: i64 = div_trunc(total, denominator);
        proof {
            lemma_trunc_div_bounds(total as int, denominator as int);
        }
        SegmentDesc {
            y_max: entry.y_max,
            lower_endpoint_x: LowerEndpointInc {
                increment: entry.lower_endpoint_x.increment + carry,
                fraction: Fraction { nominator: total - carry * denominator, denominator },
            },
            slope_inv: entry.slope_inv,
        }
    } else {
        entry
    }
}

/// The edges that meet the current scanline.
pub struct ActiveEdgeTable {
    edges: Vec<SegmentDesc>,
}

impl View for ActiveEdgeTable {
    type V = Seq<SegmentDesc>;

    closed spec fn view(&self) -> Seq<SegmentDesc> {
        self.edges@
    }
}

impl ActiveEdgeTable {
    /// A table without edges.
    pub fn new() -> (table: ActiveEdgeTable)
        ensures
            table@ == Seq::<SegmentDesc>::empty(),
    {
        ActiveEdgeTable { edges: Vec::new() }
    }

    /// The active edges in their current order.
    pub fn get_edges(&self) -> (edges: &Vec<SegmentDesc>)
        ensures
            edges@ == self@,
    {
        &self.edges
    }

    /// Adds the edges that become active on row `y` and puts all active
    /// edges in ascending order of their current x.
    pub fn insert_row(&mut self, y: i32, edge_table: &EdgeTable)
        ensures
            final(self)@ == sorted_by_x(old(self)@ + edge_table.bucket(y)),
    {
        let ghost active = self.edges@;
        let ghost bucket = edge_table.bucket(y);
        let mut merged: Vec<SegmentDesc> = Vec::new();
        let mut i: usize = 0;
        while i < self.edges.len()
            invariant
                self.edges@ == active,
                0 <= i <= active.len(),
                merged@ == sorted_by_x(active.take(i as int)),
            decreases active.len() - i,
        {
            assert(active.take(i + 1).drop_last() =~= active.take(i as int));
            insert_by_x(&mut merged, self.edges[i]);
            i = i + 1;
        }
        assert(active.take(active.len() as int) =~= active);
        assert(active + bucket.take(0) =~= active);
        match edge_table.rows.get(&y) {
            None => {
                assert(bucket.take(0) =~= bucket);
            },
            Some(row) => {
                let mut j: usize = 0;
                while j < row.len()
                    invariant
                        row@ == bucket,
                        0 <= j <= bucket.len(),
                        merged@ == sorted_by_x(active + bucket.take(j as int)),
                    decreases bucket.len() - j,
                {
                    assert((active + bucket.take(j + 1)).drop_last() =~= active + bucket.take(j as int));
                    insert_by_x(&mut merged, row[j]);
                    j = j + 1;
                }
                assert(bucket.take(bucket.len() as int) =~= bucket);
            },
        }
        self.edges = merged;
    }

    /// Drops the edges whose last row is below `row`.
    pub fn remove_lover_edges(&mut self, row: i32)
        ensures
            final(self)@ == still_active(old(self)@, row as int),
    {
        let ghost active = self.edges@;
        let ghost keep = ends_not_below(row as int);
        let length = self.edges.len();
        let mut new_edges: Vec<SegmentDesc> = Vec::new();
        let mut i: usize = 0;
        proof {
            reveal(Seq::filter);
            assert(active.take(0) =~= Seq::empty());
        }
        while i < length
            invariant
                self.edges@ == active,
                length == active.len(),
                0 <= i <= length,
                keep == ends_not_below(row as int),
                new_edges@ == active.take(i as int).filter(keep),
            decreases length - i,
        {
            proof {
                reveal(Seq::filter);
                assert(active.take(i + 1).drop_last() =~= active.take(i as int));
            }
            if self.edges[i].y_max >= row {
                new_edges.push(self.edges[i]);
            }
            i = i + 1;
        }
        assert(active.take(length as int) =~= active);
        self.edges = new_edges;
    }

    /// Moves every active edge one row up.
    pub fn increment_row(&mut self)
        requires
            forall|i: int| 0 <= i < old(self)@.len() ==> can_advance(#[trigger] old(self)@[i]),
        ensures
            final(self)@ == advanced_all(old(self)@),
    {
        let ghost active = self.edges@;
        let length = self.edges.len();
        let mut i: usize = 0;
        assert(active == old(self)@);
        while i < length
            invariant
                length == active.len(),
                self.edges@.len() == length,
                0 <= i <= length,
                forall|k: int| 0 <= k < i ==> self.edges@[k] == advanced(#[trigger] active[k]),
                forall|k: int| i <= k < length ==> self.edges@[k] == active[k],
                forall|k: int| 0 <= k < length ==> can_advance(#[trigger] active[k]),
            decreases length - i,
        {
            assert(can_advance(active[i as int]));
            let next = advance(self.edges[i]);
            self.edges[i] = next;
            i = i + 1;
        }
        assert(self.edges@ =~= advanced_all(active));
    }
}

/// The smallest y among the vertices; zero for no vertices.
pub open spec fn lowest_row(points: Seq<Point2d>) -> int
    decreases points.len(),
{
    if points.len() == 0 {
        0
    } else if points.len() == 1 {
        points[0].y as int
    } else {
        let rest = lowest_row(points.drop_last());
        if points.last().y < rest {
            points.last().y as int
        } else {
            rest
        }
    }
}

/// The largest y among the vertices; zero for no vertices.
pub open spec fn highest_row(points: Seq<Point2d>) -> int
    decreases points.len(),
{
    if points.len() == 0 {
        0
    } else if points.len() == 1 {
        points[0].y as int
    } else {
        let rest = highest_row(points.drop_last());
        if points.last().y > rest {
            points.last().y as int
        } else {
            rest
        }
    }
}

/// The active edges with which `row` is filled, in ascending order of x.
///
/// Below the lowest vertex no edge is active.  On every row from there on,
/// the edges of the row before are moved one row up, those whose last row is
/// below `row` are dropped, the edges that start on `row` are added, and
/// all are sorted by their current x.
pub open spec fn active_at(points: Seq<Point2d>, row: int) -> Seq<SegmentDesc>
    decreases row - lowest_row(points) + 1,
{
    if row < lowest_row(points) {
        Seq::empty()
    } else {
        sorted_by_x(
            still_active(advanced_all(active_at(points, row - 1)), row) + bucket_of(
                points,
                row,
                points.len() as int,
            ),
        )
    }
}

/// Whether `x` lies in the `j`-th span of the row: from the edge at place
/// `2 * j`, that x included, to the edge at place `2 * j + 1`, that x
/// excluded.
pub open spec fn in_span(entries: Seq<SegmentDesc>, j: int, x: int) -> bool {
    0 <= j && 2 * j + 1 < entries.len() && entries[2 * j].x() <= x < entries[2 * j + 1].x()
}

/// The positions on `row` within the first `spans` spans.
pub open spec fn spans_before(entries: Seq<SegmentDesc>, row: int, spans: int) -> Set<(int, int)> {
    Set::new(|p: (int, int)| p.1 == row && exists|j: int| j < spans && #[trigger] in_span(entries, j, p.0))
}

/// The positions that the even-odd rule fills on `row`: those between the
/// first and the second active edge, between the third and the fourth, and
/// so on.  A last edge without a partner fills nothing.
pub open spec fn row_spans(entries: Seq<SegmentDesc>, row: int) -> Set<(int, int)> {
    Set::new(|p: (int, int)| p.1 == row && exists|j: int| #[trigger] in_span(entries, j, p.0))
}

/// The positions filled on the rows from the lowest vertex up to, but not
/// including, `row`.
pub open spec fn rows_below(points: Seq<Point2d>, row: int) -> Set<(int, int)> {
    Set::new(
        |p: (int, int)| lowest_row(points) <= p.1 < row && row_spans(active_at(points, p.1), p.1).contains(p),
    )
}

/// The positions that the sweep covers: the spans of every row from the
/// lowest vertex to the highest.
pub open spec fn swept_pixels(points: Seq<Point2d>) -> Set<(int, int)> {
    if points.len() == 0 {
        Set::empty()
    } else {
        rows_below(points, highest_row(points) + 1)
    }
}

/// The positions on `row` from `from`, included, to `to`, excluded.
pub open spec fn run(from: int, to: int, row: int) -> Set<(int, int)> {
    Set::new(|p: (int, int)| p.1 == row && from <= p.0 < to)
}

/// A bound that an entry keeps while it moves up row by row: its integers
/// stay small, and its x can drift from where it started only by what the
/// rows that are left allow.
spec fn on_track(entry: SegmentDesc, row: int) -> bool {
    let den = entry.lower_endpoint_x.fraction.denominator as int;
    let rem = entry.lower_endpoint_x.fraction.nominator as int;
    let slope = entry.slope_inv.nominator as int;
    &&& 0 < den <= 0xffff_ffff
    &&& -0xffff_ffff <= slope <= 0xffff_ffff
    &&& -den < rem < den
    &&& row <= entry.y_max + 1
    &&& abs(entry.x()) * den + (entry.y_max + 1 - row) * (abs(slope) + den) <= 0x10_0000_0000 * den
}

proof fn lemma_fresh_on_track(edge: Line)
    requires
        !is_horizontal(edge),
    ensures
        on_track(edge_entry(edge), lower_end(edge).y as int),
        edge_entry(edge).y_max >= lower_end(edge).y,
{
    let entry = edge_entry(edge);
    let den = entry.lower_endpoint_x.fraction.denominator as int;
    let slope = entry.slope_inv.nominator as int;
    let x = entry.x();
    let a = abs(slope);
    let ax = abs(x);
    assert(entry.y_max + 1 - lower_end(edge).y == den + 1);
    assert(ax * den + (den + 1) * (a + den) <= 0x10_0000_0000 * den) by (nonlinear_arith)
        requires
            0 < den <= 0xffff_ffff,
            0 <= a <= 0xffff_ffff,
            0 <= ax <= 0x8000_0000,
    ;
}

proof fn lemma_advance_on_track(entry: SegmentDesc, row: int)
    requires
        on_track(entry, row),
        row <= entry.y_max,
    ensures
        can_advance(entry),
        on_track(advanced(entry), row + 1),
        -0x10_0000_0000 <= entry.x() <= 0x10_0000_0000,
{
    let den = entry.lower_endpoint_x.fraction.denominator as int;
    let rem = entry.lower_endpoint_x.fraction.nominator as int;
    let slope = entry.slope_inv.nominator as int;
    let x = entry.x();
    let left = entry.y_max - row;
    let total = rem + slope;
    let carry = trunc_div(total, den);
    lemma_trunc_div_bounds(total, den);
    let a = abs(slope);
    let ax = abs(x);
    assert(ax <= 0x10_0000_0000) by (nonlinear_arith)
        requires
            ax * den + (left + 1) * (a + den) <= 0x10_0000_0000 * den,
            left >= 0,
            a >= 0,
            den > 0,
            ax >= 0,
    ;
    let ac = abs(carry);
    assert(ac * den <= a + den) by (nonlinear_arith)
        requires
            ac == abs(carry),
            total >= 0 ==> 0 <= carry * den <= total,
            total <= 0 ==> total <= carry * den <= 0,
            total >= 0 ==> carry >= 0,
            total <= 0 ==> carry <= 0,
            -(a + den) < total < a + den,
            den > 0,
    ;
    assert(ac <= a + den) by (nonlinear_arith)
        requires
            ac * den <= a + den,
            den >= 1,
            ac >= 0,
    ;
    let next = advanced(entry);
    assert(next.x() == x + carry);
    assert(abs(x + carry) <= ax + ac);
    assert(abs(x + carry) * den + left * (a + den) <= 0x10_0000_0000 * den) by (nonlinear_arith)
        requires
            abs(x + carry) <= ax + ac,
            abs(x + carry) >= 0,
            ac * den <= a + den,
            ax * den + (left + 1) * (a + den) <= 0x10_0000_0000 * den,
            den > 0,
    ;
}

proof fn lemma_bucket_on_track(points: Seq<Point2d>, row: int, count: int)
    requires
        count <= points.len(),
    ensures
        forall|i: int|
            0 <= i < bucket_of(points, row, count).len() ==> on_track(
                #[trigger] bucket_of(points, row, count)[i],
                row,
            ) && bucket_of(points, row, count)[i].y_max >= row,
    decreases count,
{
    if count > 0 {
        lemma_bucket_on_track(points, row, count - 1);
        let rest = bucket_of(points, row, count - 1);
        let edge = polygon_edge(points, count - 1);
        if !is_horizontal(edge) && lower_end(edge).y == row {
            lemma_fresh_on_track(edge);
            lemma_insert_sorted(rest, edge_entry(edge));
            let result = insert_sorted(rest, edge_entry(edge));
            assert forall|i: int| 0 <= i < result.len() implies on_track(#[trigger] result[i], row)
                && result[i].y_max >= row by {
                if result[i] != edge_entry(edge) {
                    assert(rest.contains(result[i]));
                    let k = choose|k: int| 0 <= k < rest.len() && rest[k] == result[i];
                    assert(on_track(rest[k], row));
                }
            }
        }
    }
}

/// Every edge that is active on a row can move one row up, and its x is of
/// moderate size.
proof fn lemma_active_on_track(points: Seq<Point2d>, row: int)
    ensures
        forall|i: int|
            0 <= i < active_at(points, row).len() ==> on_track(#[trigger] active_at(points, row)[i], row)
                && active_at(points, row)[i].y_max >= row,
    decreases row - lowest_row(points) + 1,
{
    if row >= lowest_row(points) {
        lemma_active_on_track(points, row - 1);
        let before = active_at(points, row - 1);
        let moved = advanced_all(before);
        let keep = ends_not_below(row);
        let kept = still_active(moved, row);
        let bucket = bucket_of(points, row, points.len() as int);
        let all = kept + bucket;
        lemma_bucket_on_track(points, row, points.len() as int);
        assert forall|i: int| 0 <= i < all.len() implies on_track(#[trigger] all[i], row) && all[i].y_max
            >= row by {
            if i < kept.len() {
                moved.lemma_filter_pred(keep, i);
                assert(kept.contains(kept[i]));
                moved.lemma_filter_contains_rev(keep, kept[i]);
                let k = choose|k: int| 0 <= k < moved.len() && moved[k] == kept[i];
                assert(on_track(before[k], row - 1));
                lemma_advance_on_track(before[k], row - 1);
            } else {
                assert(all[i] == bucket[i - kept.len()]);
            }
        }
        lemma_sorted_by_x(all);
        let result = sorted_by_x(all);
        assert forall|i: int| 0 <= i < result.len() implies on_track(#[trigger] result[i], row)
            && result[i].y_max >= row by {
            assert(all.contains(result[i]));
            let k = choose|k: int| 0 <= k < all.len() && all[k] == result[i];
            assert(on_track(all[k], row));
        }
    }
}

proof fn lemma_row_range(points: Seq<Point2d>)
    requires
        points.len() > 0,
    ensures
        i32::MIN <= lowest_row(points) <= highest_row(points) <= i32::MAX,
    decreases points.len(),
{
    if points.len() > 1 {
        lemma_row_range(points.drop_last());
    }
}

/// The smallest and the largest y among the vertices.
pub fn row_range(points: &Vec<Point2d>) -> (range: (i32, i32))
    requires
        points@.len() > 0,
    ensures
        range.0 == lowest_row(points@),
        range.1 == highest_row(points@),
        range.0 <= range.1,
{
    let mut smallest: i32 = points[0].y;
    let mut biggest: i32 = points[0].y;
    let mut i: usize = 1;
    assert(points@.take(1).len() == 1);
    while i < points.len()
        invariant
            1 <= i <= points.len(),
            smallest == lowest_row(points@.take(i as int)),
            biggest == highest_row(points@.take(i as int)),
            smallest <= biggest,
        decreases points.len() - i,
    {
        assert(points@.take(i + 1).drop_last() =~= points@.take(i as int));
        if points[i].y < smallest {
            smallest = points[i].y;
        }
        if points[i].y > biggest {
            biggest = points[i].y;
        }
        i = i + 1;
    }
    assert(points@.take(points.len() as int) =~= points@);
    (smallest, biggest)
}

/// Writes the positions of one row from `from`, included, to `to`,
/// excluded.
pub fn fill_run(canvas: &mut RawCanvas, from: i64, to: i64, row: i64, color: &PixelColor)
    requires
        old(canvas).wf(),
    ensures
        final(canvas).wf(),
        final(canvas)@ == old(canvas)@.painted(
            run(from as int, to as int, row as int),
            old(canvas)@.color_value(*color),
        ),
{
    let ghost before = canvas@;
    let ghost value = before.color_value(*color);
    proof {
        old(canvas).lemma_view();
        before.lemma_painted_nothing(value);
        assert(run(from as int, from as int, row as int) =~= Set::empty());
    }
    if from >= to {
        assert(run(from as int, to as int, row as int) =~= Set::empty());
        return ;
    }
    let mut x: i64 = from;
    while x < to
        invariant
            from <= x <= to,
            before.well_formed(),
            canvas.wf(),
            canvas@ == before.painted(run(from as int, x as int, row as int), value),
            value == before.color_value(*color),
        decreases to - x,
    {
        proof {
            before.lemma_painted_insert(run(from as int, x as int, row as int), (x as int, row as int), value);
            assert(run(from as int, x + 1, row as int) =~= run(from as int, x as int, row as int).insert(
                (x as int, row as int),
            ));
        }
        canvas.put_lattice_pixel(x, row, color);
        x = x + 1;
    }
}

impl Draw for Polygon {
    open spec fn pixels(&self) -> Set<(int, int)> {
        fill_pixels(self@.points)
    }

    open spec fn color(&self) -> PixelColor {
        self@.color
    }

    /// Fills the polygon in its colour, scanline by scanline from its lowest
    /// vertex to its highest, by the even-odd rule.
    fn draw(&self, canvas: &mut RawCanvas) {
        let ghost before = canvas@;
        let ghost value = before.color_value(self.color);
        let ghost points = self.points@;
        proof {
            before.lemma_painted_nothing(value);
            lemma_sweep_even_odd(points);
        }
        if self.points.len() == 0 {
            return ;
        }
        let edge_table = EdgeTable::from_points(&self.points);
        let mut active_edge_table = ActiveEdgeTable::new();
        let (smallest_y, biggest_y) = row_range(&self.points);
        let mut row: i64 = smallest_y as i64;
        proof {
            assert(rows_below(points, row as int) =~= Set::empty());
            assert(advanced_all(active_at(points, row - 1)) =~= Seq::empty());
        }
        while row <= biggest_y as i64
            invariant
                points == self.points@,
                points == self@.points,
                points.len() > 0,
                smallest_y == lowest_row(points),
                biggest_y == highest_row(points),
                smallest_y <= row <= biggest_y + 1,
                forall|r: i32| #[trigger] edge_table.bucket(r) == bucket_of(points, r as int, points.len() as int),
                active_edge_table@ == advanced_all(active_at(points, row - 1)),
                canvas.wf(),
                canvas@ == before.painted(rows_below(points, row as int), value),
                value == before.color_value(self.color),
                value == canvas@.color_value(self.color),
            decreases biggest_y + 1 - row,
        {
            active_edge_table.remove_lover_edges(row as i32);
            active_edge_table.insert_row(row as i32, &edge_table);
            let ghost active = active_edge_table@;
            let ghost row_start = canvas@;
            proof {
                assert(edge_table.bucket(row as i32) == bucket_of(points, row as int, points.len() as int));
                assert(active == active_at(points, row as int));
                lemma_active_on_track(points, row as int);
                row_start.lemma_painted_nothing(value);
                assert(spans_before(active, row as int, 0) =~= Set::empty());
            }
            let length = active_edge_table.edges.len();
            let mut j: usize = 0;
            let ghost mut spans: int = 0;
            while j < length && j + 1 < length
                invariant
                    active == active_edge_table@,
                    active == active_edge_table.edges@,
                    length == active.len(),
                    j == 2 * spans,
                    0 <= j <= length + 1,
                    forall|i: int|
                        0 <= i < active.len() ==> on_track(#[trigger] active[i], row as int) && active[i].y_max
                            >= row,
                    canvas.wf(),
                    canvas@ == row_start.painted(spans_before(active, row as int, spans), value),
                    value == row_start.color_value(self.color),
                decreases length + 1 - j,
            {
                let first_edge = active_edge_table.edges[j];
                let second_edge = active_edge_table.edges[j + 1];
                let ghost so_far = canvas@;
                proof {
                    lemma_advance_on_track(active[j as int], row as int);
                    lemma_advance_on_track(active[j + 1], row as int);
                }
                fill_run(
                    canvas,
                    first_edge.lower_endpoint_x.increment,
                    second_edge.lower_endpoint_x.increment,
                    row,
                    &self.color,
                );
                proof {
                    let added = run(first_edge.x(), second_edge.x(), row as int);
                    row_start.lemma_painted_union(spans_before(active, row as int, spans), added, value);
                    assert(spans_before(active, row as int, spans).union(added) =~= spans_before(
                        active,
                        row as int,
                        spans + 1,
                    )) by {
                        assert forall|p: (int, int)| spans_before(active, row as int, spans).union(
                            added,
                        ).contains(p) <==> spans_before(active, row as int, spans + 1).contains(p) by {
                            if added.contains(p) {
                                assert(in_span(active, spans, p.0));
                            }
                            if spans_before(active, row as int, spans + 1).contains(p) {
                                let w = choose|w: int| w < spans + 1 && #[trigger] in_span(active, w, p.0);
                                if w < spans {
                                    assert(spans_before(active, row as int, spans).contains(p));
                                }
                            }
                        }
                    }
                    spans = spans + 1;
                }
                j = j + 2;
            }
            proof {
                assert(spans_before(active, row as int, spans) =~= row_spans(active, row as int)) by {
                    assert forall|p: (int, int)| row_spans(active, row as int).contains(p) implies spans_before(
                        active,
                        row as int,
                        spans,
                    ).contains(p) by {
                        let w = choose|w: int| #[trigger] in_span(active, w, p.0);
                        assert(w < spans);
                    }
                }
                before.lemma_painted_union(rows_below(points, row as int), row_spans(active, row as int), value);
                assert(rows_below(points, row as int).union(row_spans(active, row as int)) =~= rows_below(
                    points,
                    row + 1,
                ));
                assert forall|i: int| 0 <= i < active.len() implies can_advance(#[trigger] active[i]) by {
                    lemma_advance_on_track(active[i], row as int);
                }
            }
            active_edge_table.increment_row();
            row = row + 1;
        }
    }
}

} // verus!
