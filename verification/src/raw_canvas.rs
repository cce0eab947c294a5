//! The canvas: an owned pixel buffer that is written only through checked
//! positions, and its model.

use vstd::prelude::*;
pub use crate::pixel_color::PixelColor;

verus! {

/// The mathematical model of a canvas: its extents and the packed colour
/// value of every cell, addressed by column `x` and row `y`.
pub struct CanvasView {
    pub width: nat,
    pub height: nat,
    pub shifts: ChannelShifts,
    pub cells: Map<(int, int), u32>,
}

/// How far each channel is shifted left when a colour is packed into one
/// 32-bit value.
pub struct ChannelShifts {
    pub red: u8,
    pub green: u8,
    pub blue: u8,
    pub alpha: u8,
}

impl CanvasView {
    /// Whether `(x, y)` addresses a cell of the canvas.
    pub open spec fn in_bounds(self, x: int, y: int) -> bool {
        0 <= x < self.width && 0 <= y < self.height
    }

    /// The cells are exactly the positions within the extents.
    pub open spec fn well_formed(self) -> bool {
        forall|x: int, y: int| #[trigger] self.cells.dom().contains((x, y)) <==> self.in_bounds(x, y)
    }

    /// The canvas after one write: a position outside the extents changes
    /// nothing.
    pub open spec fn put(self, x: int, y: int, value: u32) -> CanvasView {
        if self.in_bounds(x, y) {
            CanvasView { cells: self.cells.insert((x, y), value), ..self }
        } else {
            self
        }
    }

    /// The canvas after every position of `pixels` that lies within the
    /// extents has received `value`.
    pub open spec fn painted(self, pixels: Set<(int, int)>, value: u32) -> CanvasView {
        CanvasView {
            cells: Map::new(
                |p: (int, int)| self.cells.dom().contains(p),
                |p: (int, int)| if pixels.contains(p) { value } else { self.cells[p] },
            ),
            ..self
        }
    }

    /// The packed value that `color` has on this canvas.
    pub open spec fn color_value(self, color: PixelColor) -> u32 {
        packed_color(self.shifts, color)
    }

    /// Painting no position changes nothing.
    pub proof fn lemma_painted_nothing(self, value: u32)
        ensures
            self.painted(Set::empty(), value) == self,
    {
        assert(self.painted(Set::empty(), value).cells =~= self.cells);
    }

    /// Painting a set and then writing one more position is painting the set
    /// with that position added.
    pub proof fn lemma_painted_insert(self, pixels: Set<(int, int)>, p: (int, int), value: u32)
        requires
            self.well_formed(),
        ensures
            self.painted(pixels, value).put(p.0, p.1, value) == self.painted(pixels.insert(p), value),
    {
        let left = self.painted(pixels, value).put(p.0, p.1, value);
        let right = self.painted(pixels.insert(p), value);
        assert(self.cells.dom().contains(p) <==> self.in_bounds(p.0, p.1));
        assert(left.cells =~= right.cells);
    }

    /// Painting two sets in turn is painting their union.
    pub proof fn lemma_painted_union(self, a: Set<(int, int)>, b: Set<(int, int)>, value: u32)
        ensures
            self.painted(a, value).painted(b, value) == self.painted(a.union(b), value),
    {
        assert(self.painted(a, value).painted(b, value).cells =~= self.painted(a.union(b), value).cells);
    }

    /// The canvas with every cell holding `value`.
    pub open spec fn filled(self, value: u32) -> CanvasView {
        CanvasView {
            cells: Map::new(|p: (int, int)| self.cells.dom().contains(p), |p: (int, int)| value),
            ..self
        }
    }
}

/// The packed value of a colour under the four channel shifts, channels
/// combined by bitwise or.
pub open spec fn packed_color(shifts: ChannelShifts, color: PixelColor) -> u32 {
    (color.red as u32) << (shifts.red as u32) | (color.blue as u32) << (shifts.blue as u32) | (
    color.green as u32) << (shifts.green as u32) | (color.alpha as u32) << (shifts.alpha as u32)
}

/// An owned pixel buffer with its extents and channel layout.  Row 0 is the
/// bottom row of the picture; the buffer stores the top row first.
pub struct RawCanvas {
    width: u32,
    height: u32,
    pixels: Vec<u32>,
    red_shift: u8,
    green_shift: u8,
    blue_shift: u8,
    alpha_shift: u8,
}

/// Position in the buffer of the cell in column `x`, row `y`.
pub open spec fn cell_offset(width: int, height: int, x: int, y: int) -> int {
    (height - y - 1) * width + x
}

proof fn lemma_cell_offset_bounds(width: int, height: int, x: int, y: int)
    by (nonlinear_arith)
    requires
        0 <= x < width,
        0 <= y < height,
    ensures
        0 <= (height - y - 1) * width <= cell_offset(width, height, x, y) < width * height,
{
}

proof fn lemma_cell_offset_injective(width: int, height: int, x1: int, y1: int, x2: int, y2: int)
    by (nonlinear_arith)
    requires
        0 <= x1 < width,
        0 <= x2 < width,
        cell_offset(width, height, x1, y1) == cell_offset(width, height, x2, y2),
    ensures
        x1 == x2,
        y1 == y2,
{
}

impl View for RawCanvas {
    type V = CanvasView;

    closed spec fn view(&self) -> CanvasView {
        CanvasView {
            width: self.width as nat,
            height: self.height as nat,
            shifts: ChannelShifts {
                red: self.red_shift,
                green: self.green_shift,
                blue: self.blue_shift,
                alpha: self.alpha_shift,
            },
            cells: Map::new(
                |p: (int, int)| 0 <= p.0 < self.width && 0 <= p.1 < self.height,
                |p: (int, int)| self.pixels@[cell_offset(self.width as int, self.height as int, p.0, p.1)],
            ),
        }
    }
}

impl RawCanvas {
    /// The representation invariant: the buffer holds one value per cell and
    /// every channel shift is a valid shift of a 32-bit value.
    pub closed spec fn wf(&self) -> bool {
        &&& self.pixels@.len() == self.width * self.height
        &&& self.red_shift < 32
        &&& self.green_shift < 32
        &&& self.blue_shift < 32
        &&& self.alpha_shift < 32
    }

    /// The stored buffer, top row first.
    pub closed spec fn buffer(&self) -> Seq<u32> {
        self.pixels@
    }

    /// The model of a well-formed canvas is well formed, and its cells are
    /// those of the buffer.
    pub proof fn lemma_view(&self)
        requires
            self.wf(),
        ensures
            self@.well_formed(),
            self.buffer().len() == self@.width * self@.height,
            forall|x: int, y: int| #[trigger]
                self@.in_bounds(x, y) ==> self@.cells[(x, y)] == self.buffer()[cell_offset(
                    self@.width as int,
                    self@.height as int,
                    x,
                    y,
                )],
    {
    }

    /// A canvas of the given extents and channel layout with every cell zero.
    pub fn new(
        width: u32,
        height: u32,
        red_shift: u8,
        green_shift: u8,
        blue_shift: u8,
        alpha_shift: u8,
    ) -> (canvas: RawCanvas)
        requires
            width * height <= usize::MAX,
            red_shift < 32,
            green_shift < 32,
            blue_shift < 32,
            alpha_shift < 32,
        ensures
            canvas.wf(),
            canvas@.width == width,
            canvas@.height == height,
            canvas@.well_formed(),
            forall|x: int, y: int| #[trigger] canvas@.in_bounds(x, y) ==> canvas@.cells[(x, y)] == 0,
            canvas@.shifts == (ChannelShifts {
                red: red_shift,
                green: green_shift,
                blue: blue_shift,
                alpha: alpha_shift,
            }),
    {
        let size: usize = (width as usize) * (height as usize);
        let pixels: Vec<u32> = vec![0u32; size];
        let canvas = RawCanvas { width, height, pixels, red_shift, green_shift, blue_shift, alpha_shift };
        proof {
            assert forall|x: int, y: int| #[trigger] canvas@.in_bounds(x, y) implies canvas@.cells[(
                x,
                y,
            )] == 0 by {
                lemma_cell_offset_bounds(width as int, height as int, x, y);
            }
        }
        canvas
    }

    /// Number of columns.
    pub fn width(&self) -> (w: u32)
        ensures
            w == self@.width,
    {
        self.width
    }

    /// Number of rows.
    pub fn height(&self) -> (h: u32)
        ensures
            h == self@.height,
    {
        self.height
    }

    /// The packed value of `color` under the canvas's channel layout.
    pub fn calculate_color_value(&self, color: &PixelColor) -> (value: u32)
        requires
            self.wf(),
        ensures
            value == self@.color_value(*color),
    {
        (color.red as u32) << (self.red_shift as u32) | (color.blue as u32) << (
        self.blue_shift as u32) | (color.green as u32) << (self.green_shift as u32) | (
        color.alpha as u32) << (self.alpha_shift as u32)
    }

    /// Fills the whole canvas with `color`.
    pub fn clean_color(&mut self, color: &PixelColor)
        requires
            old(self).wf(),
        ensures
            final(self).wf(),
            final(self)@ == old(self)@.filled(old(self)@.color_value(*color)),
    {
        let value = self.calculate_color_value(color);
        let n: usize = self.pixels.len();
        let mut i: usize = 0;
        while i < n
            invariant
                self.wf(),
                n == self.pixels@.len(),
                i <= n,
                self.width == old(self).width,
                self.height == old(self).height,
                self.red_shift == old(self).red_shift,
                self.green_shift == old(self).green_shift,
                self.blue_shift == old(self).blue_shift,
                self.alpha_shift == old(self).alpha_shift,
                forall|k: int| 0 <= k < i ==> self.pixels@[k] == value,
            decreases n - i,
        {
            self.pixels[i] = value;
            i = i + 1;
        }
        proof {
            let w = self.width as int;
            let h = self.height as int;
            assert forall|p: (int, int)| 0 <= p.0 < w && 0 <= p.1 < h implies self.pixels@[cell_offset(
                w,
                h,
                p.0,
                p.1,
            )] == value by {
                lemma_cell_offset_bounds(w, h, p.0, p.1);
            }
            assert(self@.cells =~= old(self)@.filled(value).cells);
        }
    }

    /// Writes one cell.  A position outside the extents is ignored.
    pub fn put_pixel(&mut self, x: u32, y: u32, color: &PixelColor)
        requires
            old(self).wf(),
        ensures
            final(self).wf(),
            final(self)@ == old(self)@.put(x as int, y as int, old(self)@.color_value(*color)),
    {
        if x < self.width && y < self.height {
            let value = self.calculate_color_value(color);
            proof {
                lemma_cell_offset_bounds(self.width as int, self.height as int, x as int, y as int);
            }
            let row: usize = (self.height - y - 1) as usize;
            let w: usize = self.width as usize;
            assert(row * w == (self.height - y - 1) * self.width);
            assert(self.pixels.len() <= usize::MAX);
            let offset: usize = row * w + (x as usize);
            self.pixels[offset] = value;
            proof {
                let w = self.width as int;
                let h = self.height as int;
                assert forall|p: (int, int)| 0 <= p.0 < w && 0 <= p.1 < h implies self@.cells[p] == old(
                    self,
                )@.put(x as int, y as int, value).cells[p] by {
                    lemma_cell_offset_bounds(w, h, p.0, p.1);
                    if cell_offset(w, h, p.0, p.1) == offset {
                        lemma_cell_offset_injective(w, h, p.0, p.1, x as int, y as int);
                    }
                }
                assert(self@.cells =~= old(self)@.put(x as int, y as int, value).cells);
            }
        }
    }

    /// Writes the cell at a lattice position.  A position that is negative
    /// or otherwise outside the extents is ignored.
    pub fn put_lattice_pixel(&mut self, x: i64, y: i64, color: &PixelColor)
        requires
            old(self).wf(),
        ensures
            final(self).wf(),
            final(self)@ == old(self)@.put(x as int, y as int, old(self)@.color_value(*color)),
    {
        if 0 <= x && x <= 0xffff_ffff && 0 <= y && y <= 0xffff_ffff {
            self.put_pixel(x as u32, y as u32, color);
        }
    }

    /// Reads one cell, or nothing for a position outside the extents.
    pub fn get_pixel(&self, x: u32, y: u32) -> (value: Option<u32>)
        requires
            self.wf(),
        ensures
            value == if self@.in_bounds(x as int, y as int) {
                Some(self@.cells[(x as int, y as int)])
            } else {
                None
            },
    {
        if x < self.width && y < self.height {
            proof {
                lemma_cell_offset_bounds(self.width as int, self.height as int, x as int, y as int);
            }
            let row: usize = (self.height - y - 1) as usize;
            let w: usize = self.width as usize;
            assert(row * w == (self.height - y - 1) * self.width);
            assert(self.pixels.len() <= usize::MAX);
            let offset: usize = row * w + (x as usize);
            Some(self.pixels[offset])
        } else {
            None
        }
    }

    /// The stored values, top row first, each row from left to right.
    pub fn pixels(&self) -> (buffer: &Vec<u32>)
        ensures
            buffer@ == self.buffer(),
    {
        &self.pixels
    }
}

} // verus!
