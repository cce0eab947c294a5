//! Line segments and their raster path.

use vstd::prelude::*;
use crate::arith::{
    abs, lemma_round_div_monotone, lemma_round_div_multiple, lemma_round_div_shift,
    lemma_round_div_unique, round_div,
};
use crate::draw::Draw;
use crate::pixel_color::PixelColor;
use crate::point2d::Point2d;
use crate::raw_canvas::RawCanvas;
use crate::seqs::lemma_take_to_set_step;

verus! {

/// A line segment given by its two end points.
#[derive(Clone, Copy, Debug, PartialEq, Eq, Structural)]
pub struct Line {
    pub first: Point2d,
    pub last: Point2d,
}

/// The sign of an integer as a step of one unit; zero counts as forward.
pub open spec fn unit_step(v: int) -> int {
    if v >= 0 {
        1
    } else {
        -1
    }
}

impl Line {
    pub fn new(x1: i32, y1: i32, x2: i32, y2: i32) -> (line: Line)
        ensures
            line == (Line { first: Point2d { x: x1, y: y1 }, last: Point2d { x: x2, y: y2 } }),
    {
        Line { first: Point2d::new(x1, y1), last: Point2d::new(x2, y2) }
    }

    /// Extent of the segment along the x axis, signed from `first` to `last`.
    pub open spec fn dx(self) -> int {
        self.last.x - self.first.x
    }

    /// Extent of the segment along the y axis, signed from `first` to `last`.
    pub open spec fn dy(self) -> int {
        self.last.y - self.first.y
    }

    /// Whether the raster path advances along x (the segment is at least as
    /// wide as it is tall) rather than along y.
    pub open spec fn x_major(self) -> bool {
        abs(self.dy()) <= abs(self.dx())
    }

    /// Number of unit steps of the raster path: the larger of the two extents.
    pub open spec fn steps(self) -> int {
        if self.x_major() {
            abs(self.dx())
        } else {
            abs(self.dy())
        }
    }

    /// The `k`-th position of the raster path.  The path advances one unit
    /// per step along the major axis; on the other axis it takes the lattice
    /// coordinate nearest to the exact segment, a tie going to the larger
    /// coordinate.
    pub open spec fn path_pixel(self, k: int) -> (int, int) {
        if self.steps() == 0 {
            self.first.position()
        } else if self.x_major() {
            (
                self.first.x + k * unit_step(self.dx()),
                self.first.y + round_div(k * self.dy(), abs(self.dx())),
            )
        } else {
            (
                self.first.x + round_div(k * self.dx(), abs(self.dy())),
                self.first.y + k * unit_step(self.dy()),
            )
        }
    }

    /// The raster path from `first` to `last`.
    pub open spec fn path(self) -> Seq<(int, int)> {
        Seq::new((self.steps() + 1) as nat, |k: int| self.path_pixel(k))
    }

    /// The path starts at `first`, ends at `last` and has one position more
    /// than the larger extent of the segment.
    pub proof fn lemma_path_ends(self)
        ensures
            self.path().len() == self.steps() + 1,
            self.path().first() == self.first.position(),
            self.path().last() == self.last.position(),
    {
        let n = self.steps();
        if n != 0 {
            if self.x_major() {
                lemma_round_div_multiple(self.dy(), n);
                assert(n * self.dy() == self.dy() * n) by (nonlinear_arith);
                assert(n * unit_step(self.dx()) == self.dx()) by (nonlinear_arith)
                    requires
                        n == abs(self.dx()),
                ;
                lemma_round_div_multiple(0, n);
                assert(0 * self.dy() == 0 * n) by (nonlinear_arith);
            } else {
                lemma_round_div_multiple(self.dx(), n);
                assert(n * self.dx() == self.dx() * n) by (nonlinear_arith);
                assert(n * unit_step(self.dy()) == self.dy()) by (nonlinear_arith)
                    requires
                        n == abs(self.dy()),
                ;
                lemma_round_div_multiple(0, n);
                assert(0 * self.dx() == 0 * n) by (nonlinear_arith);
            }
        }
    }
}

impl Line {
    /// From one position of the raster path to the next, the coordinate
    /// along the major axis moves by exactly one unit toward `last`, and the
    /// other coordinate by at most one unit: the path has no gaps and never
    /// turns back.
    pub proof fn lemma_path_step(self, k: int)
        requires
            0 <= k < self.steps(),
        ensures
            self.x_major() ==> self.path()[k + 1].0 == self.path()[k].0 + unit_step(self.dx()) && -1
                <= self.path()[k + 1].1 - self.path()[k].1 <= 1,
            !self.x_major() ==> self.path()[k + 1].1 == self.path()[k].1 + unit_step(self.dy()) && -1
                <= self.path()[k + 1].0 - self.path()[k].0 <= 1,
    {
        let n = self.steps();
        let minor = if self.x_major() {
            self.dy()
        } else {
            self.dx()
        };
        let step = if self.x_major() {
            unit_step(self.dx())
        } else {
            unit_step(self.dy())
        };
        assert((k + 1) * minor == k * minor + minor) by (nonlinear_arith);
        assert((k + 1) * step == k * step + step) by (nonlinear_arith);
        lemma_round_div_shift(k * minor, n, 1);
        lemma_round_div_shift(k * minor, n, -1);
        assert(1 * n == n && (-1) * n == -n);
        lemma_round_div_monotone(k * minor - n, (k + 1) * minor, n);
        lemma_round_div_monotone((k + 1) * minor, k * minor + n, n);
    }

    /// The coordinate along the major axis of the `k`-th position of the
    /// raster path lies `k` units from `first` in the direction of `last`.
    pub proof fn lemma_path_major(self, k: int)
        requires
            0 <= k <= self.steps(),
        ensures
            self.x_major() ==> self.path()[k].0 == self.first.x + k * unit_step(self.dx()),
            !self.x_major() ==> self.path()[k].1 == self.first.y + k * unit_step(self.dy()),
    {
        if self.steps() == 0 {
            assert(k * unit_step(self.dx()) == 0) by (nonlinear_arith)
                requires
                    k == 0,
            ;
            assert(k * unit_step(self.dy()) == 0) by (nonlinear_arith)
                requires
                    k == 0,
            ;
        }
    }

    /// No position occurs twice on the raster path: the path covers exactly
    /// as many positions as it is long.
    pub proof fn lemma_path_distinct(self)
        ensures
            self.path().no_duplicates(),
    {
        assert forall|i: int, j: int|
            0 <= i < self.path().len() && 0 <= j < self.path().len() && i != j implies self.path()[i]
            != self.path()[j] by {
            self.lemma_path_major(i);
            self.lemma_path_major(j);
            let step = if self.x_major() {
                unit_step(self.dx())
            } else {
                unit_step(self.dy())
            };
            assert(i * step != j * step) by (nonlinear_arith)
                requires
                    i != j,
                    step == 1 || step == -1,
            ;
        }
    }
}

/// Drawing a segment covers exactly one position more than the larger of
/// its two extents.
pub proof fn lemma_line_pixel_count(line: Line)
    ensures
        line.pixels().finite(),
        line.pixels().len() == line.steps() + 1,
{
    line.lemma_path_distinct();
    line.path().unique_seq_to_set();
    vstd::seq_lib::seq_to_set_is_finite(line.path());
}

impl Draw for Line {
    open spec fn pixels(&self) -> Set<(int, int)> {
        self.path().to_set()
    }

    open spec fn color(&self) -> PixelColor {
        PixelColor { red: 255, green: 0, blue: 0, alpha: 0 }
    }

    /// Rasterizes the segment in red.  The walk advances one unit per step
    /// along the major axis and keeps an integer error term; the other
    /// coordinate moves by one unit exactly when the term leaves its range.
    fn draw(&self, canvas: &mut RawCanvas) {
        let color = PixelColor::red();
        let ghost before = canvas@;
        let ghost value = before.color_value(color);
        let ghost path = self.path();
        let x1: i64 = self.first.x as i64;
        let y1: i64 = self.first.y as i64;
        let dx: i64 = self.last.x as i64 - x1;
        let dy: i64 = self.last.y as i64 - y1;
        let adx: i64 = if dx >= 0 {
            dx
        } else {
            -dx
        };
        let ady: i64 = if dy >= 0 {
            dy
        } else {
            -dy
        };
        proof {
            old(canvas).lemma_view();
            before.lemma_painted_nothing(value);
            assert(path.take(0).to_set() =~= Set::empty());
        }
        if adx == 0 && ady == 0 {
            canvas.put_lattice_pixel(x1, y1, &color);
            proof {
                before.lemma_painted_insert(Set::empty(), (x1 as int, y1 as int), value);
                lemma_take_to_set_step(path, 0);
                assert(path.take(1) =~= path);
            }
        } else if ady <= adx {
            let n: i64 = adx;
            let step: i64 = if dx >= 0 {
                1
            } else {
                -1
            };
            let mut k: i64 = 0;
            let mut x: i64 = x1;
            let mut y: i64 = y1;
            let mut e: i64 = n;
            assert(0 * dy == 0);
            assert(0 * n == 0);
            while k <= n
                invariant
                    0 < n == adx == abs(self.dx()) <= 0xffff_ffff,
                    self.steps() == n,
                    self.x_major(),
                    dx == self.dx(),
                    dy == self.dy(),
                    -n <= dy <= n,
                    x1 == self.first.x,
                    y1 == self.first.y,
                    step == unit_step(dx as int),
                    0 <= k <= n + 1,
                    x == x1 + k * step,
                    -k <= y - y1 <= k,
                    0 <= e < 2 * n,
                    e == 2 * (k * dy) + n - 2 * ((y - y1) * n),
                    path == self.path(),
                    before.well_formed(),
                    canvas.wf(),
                    canvas@ == before.painted(path.take(k as int).to_set(), value),
                    value == before.color_value(color),
                    before.shifts == canvas@.shifts,
                decreases n + 1 - k,
            {
                proof {
                    assert(2 * (y - y1) * n == 2 * ((y - y1) * n)) by (nonlinear_arith);
                    lemma_round_div_unique(k * dy, n as int, y - y1);
                    assert(path[k as int] == (x as int, y as int));
                    before.lemma_painted_insert(path.take(k as int).to_set(), (x as int, y as int), value);
                    lemma_take_to_set_step(path, k as int);
                    assert((k + 1) * dy == k * dy + dy) by (nonlinear_arith);
                    assert((k + 1) * step == k * step + step) by (nonlinear_arith);
                    assert((y - y1 + 1) * n == (y - y1) * n + n) by (nonlinear_arith);
                    assert((y - y1 - 1) * n == (y - y1) * n - n) by (nonlinear_arith);
                }
                canvas.put_lattice_pixel(x, y, &color);
                k = k + 1;
                x = x + step;
                e = e + 2 * dy;
                if e >= 2 * n {
                    y = y + 1;
                    e = e - 2 * n;
                } else if e < 0 {
                    y = y - 1;
                    e = e + 2 * n;
                }
            }
            assert(path.take(n + 1) =~= path);
        } else {
            let n: i64 = ady;
            let step: i64 = if dy >= 0 {
                1
            } else {
                -1
            };
            let mut k: i64 = 0;
            let mut x: i64 = x1;
            let mut y: i64 = y1;
            let mut e: i64 = n;
            assert(0 * dx == 0);
            assert(0 * n == 0);
            while k <= n
                invariant
                    0 < n == ady == abs(self.dy()) <= 0xffff_ffff,
                    self.steps() == n,
                    !self.x_major(),
                    dx == self.dx(),
                    dy == self.dy(),
                    -n <= dx <= n,
                    x1 == self.first.x,
                    y1 == self.first.y,
                    step == unit_step(dy as int),
                    0 <= k <= n + 1,
                    y == y1 + k * step,
                    -k <= x - x1 <= k,
                    0 <= e < 2 * n,
                    e == 2 * (k * dx) + n - 2 * ((x - x1) * n),
                    path == self.path(),
                    before.well_formed(),
                    canvas.wf(),
                    canvas@ == before.painted(path.take(k as int).to_set(), value),
                    value == before.color_value(color),
                    before.shifts == canvas@.shifts,
                decreases n + 1 - k,
            {
                proof {
                    assert(2 * (x - x1) * n == 2 * ((x - x1) * n)) by (nonlinear_arith);
                    lemma_round_div_unique(k * dx, n as int, x - x1);
                    assert(path[k as int] == (x as int, y as int));
                    before.lemma_painted_insert(path.take(k as int).to_set(), (x as int, y as int), value);
                    lemma_take_to_set_step(path, k as int);
                    assert((k + 1) * dx == k * dx + dx) by (nonlinear_arith);
                    assert((k + 1) * step == k * step + step) by (nonlinear_arith);
                    assert((x - x1 + 1) * n == (x - x1) * n + n) by (nonlinear_arith);
                    assert((x - x1 - 1) * n == (x - x1) * n - n) by (nonlinear_arith);
                }
                canvas.put_lattice_pixel(x, y, &color);
                k = k + 1;
                y = y + step;
                e = e + 2 * dx;
                if e >= 2 * n {
                    x = x + 1;
                    e = e - 2 * n;
                } else if e < 0 {
                    x = x - 1;
                    e = e + 2 * n;
                }
            }
            assert(path.take(n + 1) =~= path);
        }
    }
}

} // verus!
