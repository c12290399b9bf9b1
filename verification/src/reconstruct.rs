//! The exact parts of reading a table back from a photograph: which image
//! pixels are sampled for a table cell, and which cells of a measured
//! squares-layout table are trusted when it is inverted.
use vstd::prelude::*;
use crate::hald_generator::{HaldImageRgbMap, rgb_from_xy_squares, sq_cell, sq_xy, xy_from_rgb_squares};
use crate::layout::{lut_side, shades};
use crate::pixel::Pixel;
use crate::tones::ToneScale;

verus! {

/// Largest per-channel difference, in 8-bit steps, that still counts as
/// close: a difference `d` exceeds the threshold `0.27` of the unit channel
/// range exactly when `d / 255 > 0.27`, that is when `d > 68`.
pub const CHANNEL_TOLERANCE: u8 = 68;

/// Absolute difference of two channel values.
pub open spec fn channel_distance(a: u8, b: u8) -> int {
    if a >= b { a - b } else { b - a }
}

/// Every channel of `a` is within the tolerance of the same channel of `b`.
pub open spec fn srgb_close(a: Pixel, b: Pixel) -> bool {
    &&& channel_distance(a.r, b.r) <= CHANNEL_TOLERANCE
    &&& channel_distance(a.g, b.g) <= CHANNEL_TOLERANCE
    &&& channel_distance(a.b, b.b) <= CHANNEL_TOLERANCE
}

/// A cell of a measured table that the squares inversion keeps: the
/// measured colour at `(x, y)` names position `(x2, y2)`, where the identity
/// colour `color` of `(x, y)` is to be accumulated.
#[derive(Clone, Copy, Debug, PartialEq, Eq, Structural)]
pub struct SquaresInsert {
    pub x: u32,
    pub y: u32,
    pub x2: u32,
    pub y2: u32,
    pub color: Pixel,
}

/// Whether the squares inversion keeps cell `(x, y)` of the measured table
/// `src`: the measured colour must be close to the identity colour of
/// `(x, y)` and to that of the position it names, and those two identity
/// colours must be close to each other.
pub open spec fn squares_accepts(src: Seq<Seq<Pixel>>, tones: ToneScale, x: int, y: int) -> bool {
    let px = src[x][y];
    let to = sq_xy(tones, px);
    &&& srgb_close(px, sq_cell(tones, x, y))
    &&& srgb_close(px, sq_cell(tones, to.0, to.1))
    &&& srgb_close(sq_cell(tones, x, y), sq_cell(tones, to.0, to.1))
}

/// The insertion made for cell `(x, y)` when it is kept.
pub open spec fn squares_insert(src: Seq<Seq<Pixel>>, tones: ToneScale, x: int, y: int) -> SquaresInsert {
    let to = sq_xy(tones, src[x][y]);
    SquaresInsert { x: x as u32, y: y as u32, x2: to.0 as u32, y2: to.1 as u32, color: sq_cell(tones, x, y) }
}

/// The insertions for the first `k` cells of `src` in row-major order.
pub open spec fn squares_plan(src: Seq<Seq<Pixel>>, tones: ToneScale, k: nat) -> Seq<SquaresInsert>
    decreases k,
{
    if k == 0 {
        Seq::empty()
    } else {
        let side = lut_side(tones.spec_level());
        let prev = squares_plan(src, tones, (k - 1) as nat);
        let x = (k - 1) / side;
        let y = (k - 1) % side;
        if squares_accepts(src, tones, x, y) {
            prev.push(squares_insert(src, tones, x, y))
        } else {
            prev
        }
    }
}

/// The image pixels `(sx + i, sy + j)`, `0 <= i, j < s`, taken `i` outer
/// and `j` inner, that lie inside a `width` by `height` image; the first `k`
/// of the `s * s` candidates.
pub open spec fn window_points(sx: int, sy: int, s: int, width: int, height: int, k: nat) -> Seq<(u32, u32)>
    decreases k,
{
    if k == 0 {
        Seq::empty()
    } else {
        let prev = window_points(sx, sy, s, width, height, (k - 1) as nat);
        let px = sx + (k - 1) / s;
        let py = sy + (k - 1) % s;
        if px < width && py < height {
            prev.push((px as u32, py as u32))
        } else {
            prev
        }
    }
}

/// First image coordinate sampled for table coordinate `l`.
pub open spec fn window_start(l: int, level: int, pixel_size: int, scaled_space: int, sample_size: int) -> int {
    l * pixel_size + (l / shades(level)) * scaled_space + (pixel_size - sample_size) / 2
}

/// Whether two channel values are within the tolerance of each other.
fn channel_close(a: u8, b: u8) -> (close: bool)
    ensures
        close == (channel_distance(a, b) <= CHANNEL_TOLERANCE),
{
    let d = if a >= b { a - b } else { b - a };
    d <= CHANNEL_TOLERANCE
}

/// Every channel of `a` is within the tolerance of that of `b`.
pub fn pixels_close(a: Pixel, b: Pixel) -> (close: bool)
    ensures
        close == srgb_close(a, b),
{
    channel_close(a.r, b.r) && channel_close(a.g, b.g) && channel_close(a.b, b.b)
}

impl HaldImageRgbMap {
    /// The cells that the squares inversion of this measured table keeps,
    /// in the row-major order it visits them, each with the position its
    /// colour names and the identity colour to accumulate there.
    pub fn reverse_squares_plan(&self, tones: &ToneScale) -> (plan: Vec<SquaresInsert>)
        requires
            self.wf(),
            tones.wf(),
            tones.spec_level() == self.spec_level(),
        ensures
            plan@ == squares_plan(
                self.cells(),
                *tones,
                (lut_side(self.spec_level()) * lut_side(self.spec_level())) as nat,
            ),
    {
        let level = self.level();
        proof {
            self.lemma_wf();
            crate::hald_generator::lemma_level_bounds(level as int);
        }
        let size = self.side();
        let ghost src = self.cells();
        let mut plan: Vec<SquaresInsert> = Vec::new();
        let mut x: u32 = 0;
        while x < size
            invariant
                x <= size,
                self.wf(),
                self.spec_level() == level,
                src == self.cells(),
                tones.wf(),
                tones.spec_level() == level,
                size == lut_side(level as int),
                lut_side(level as int) <= u32::MAX,
                plan@ == squares_plan(src, *tones, (x * size) as nat),
            decreases size - x,
        {
            let mut y: u32 = 0;
            while y < size
                invariant
                    x < size,
                    y <= size,
                    self.wf(),
                    self.spec_level() == level,
                    src == self.cells(),
                    tones.wf(),
                    tones.spec_level() == level,
                    size == lut_side(level as int),
                    lut_side(level as int) <= u32::MAX,
                    plan@ == squares_plan(src, *tones, (x * size + y) as nat),
                decreases size - y,
            {
                proof {
                    assert(level >= 1) by (nonlinear_arith)
                        requires
                            size == level as int * level * level,
                            size > 0,
                            level >= 0,
                    ;
                    let k = x * size + y;
                    assert(0 <= k) by (nonlinear_arith)
                        requires
                            k == x * size + y,
                            x >= 0,
                            size >= 0,
                            y >= 0,
                    ;
                    vstd::arithmetic::div_mod::lemma_fundamental_div_mod_converse(k, size as int, x as int, y as int);
                }
                let px = self.pixel(x, y);
                let expected = rgb_from_xy_squares(x, y, level, tones);
                let (x2, y2) = xy_from_rgb_squares(px, level, tones);
                let canonical = rgb_from_xy_squares(x2, y2, level, tones);
                if pixels_close(px, expected) && pixels_close(px, canonical) && pixels_close(expected, canonical) {
                    plan.push(SquaresInsert { x, y, x2, y2, color: expected });
                }
                y = y + 1;
            }
            proof {
                assert(x * size + size == (x + 1) * size) by (nonlinear_arith);
            }
            x = x + 1;
        }
        plan
    }

    /// The image pixels sampled for table cell `(lx, ly)` of a photographed
    /// squares-layout table whose table pixels are `pixel_size` image pixels
    /// wide, whose gaps are `scaled_space` wide and of which a centred square
    /// of side `sample_size` is sampled: those of the square that lie inside
    /// the `width` by `height` image, column by column.
    pub fn sample_points(
        &self,
        lx: u32,
        ly: u32,
        pixel_size: u32,
        scaled_space: u32,
        sample_size: u32,
        width: u32,
        height: u32,
    ) -> (points: Vec<(u32, u32)>)
        requires
            self.wf(),
            self.spec_level() >= 1,
            sample_size <= pixel_size,
            window_start(lx as int, self.spec_level(), pixel_size as int, scaled_space as int, sample_size as int)
                + sample_size <= u32::MAX,
            window_start(ly as int, self.spec_level(), pixel_size as int, scaled_space as int, sample_size as int)
                + sample_size <= u32::MAX,
        ensures
            points@ == window_points(
                window_start(lx as int, self.spec_level(), pixel_size as int, scaled_space as int, sample_size as int),
                window_start(ly as int, self.spec_level(), pixel_size as int, scaled_space as int, sample_size as int),
                sample_size as int,
                width as int,
                height as int,
                (sample_size * sample_size) as nat,
            ),
    {
        let level = self.level();
        proof {
            self.lemma_wf();
            crate::hald_generator::lemma_level_bounds(level as int);
        }
        let n = level * level;
        let ghost l = level as int;
        let ghost ps = pixel_size as int;
        let ghost ss = scaled_space as int;
        let ghost s = sample_size as int;
        let ghost wx = window_start(lx as int, l, ps, ss, s);
        let ghost wy = window_start(ly as int, l, ps, ss, s);
        assert(lx as int * ps <= wx && (lx as int / shades(l)) * ss <= wx) by (nonlinear_arith)
            requires
                wx == lx * ps + (lx as int / shades(l)) * ss + (ps - s) / 2,
                lx >= 0,
                ps >= s,
                s >= 0,
                ss >= 0,
                shades(l) >= 1,
        ;
        assert(ly as int * ps <= wy && (ly as int / shades(l)) * ss <= wy) by (nonlinear_arith)
            requires
                wy == ly * ps + (ly as int / shades(l)) * ss + (ps - s) / 2,
                ly >= 0,
                ps >= s,
                s >= 0,
                ss >= 0,
                shades(l) >= 1,
        ;
        let img_x = lx * pixel_size + (lx / n) * scaled_space;
        let img_y = ly * pixel_size + (ly / n) * scaled_space;
        let start_x = img_x + (pixel_size - sample_size) / 2;
        let start_y = img_y + (pixel_size - sample_size) / 2;
        let mut points: Vec<(u32, u32)> = Vec::new();
        let mut i: u32 = 0;
        while i < sample_size
            invariant
                i <= sample_size,
                start_x == wx,
                start_y == wy,
                wx + sample_size <= u32::MAX,
                wy + sample_size <= u32::MAX,
                points@ == window_points(wx, wy, s, width as int, height as int, (i * s) as nat),
                s == sample_size,
            decreases sample_size - i,
        {
            let mut j: u32 = 0;
            while j < sample_size
                invariant
                    i < sample_size,
                    j <= sample_size,
                    start_x == wx,
                    start_y == wy,
                    wx + sample_size <= u32::MAX,
                    wy + sample_size <= u32::MAX,
                    points@ == window_points(wx, wy, s, width as int, height as int, (i * s + j) as nat),
                    s == sample_size,
                decreases sample_size - j,
            {
                proof {
                    let k = i * s + j;
                    assert(0 <= k) by (nonlinear_arith)
                        requires
                            k == i * s + j,
                            i >= 0,
                            s >= 0,
                            j >= 0,
                    ;
                    vstd::arithmetic::div_mod::lemma_fundamental_div_mod_converse(k, s, i as int, j as int);
                }
                let px_x = start_x + i;
                let px_y = start_y + j;
                if px_x < width && px_y < height {
                    points.push((px_x, px_y));
                }
                j = j + 1;
            }
            proof {
                assert(i * s + s == (i + 1) * s) by (nonlinear_arith);
            }
            i = i + 1;
        }
        points
    }
}

} // verus!
