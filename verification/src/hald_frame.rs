//! Rendering a table as a printable Hald image: the table's tiles spread
//! apart by gaps, a white border, gap pixels filled from a nearby tile and
//! black corner marks around the table.
use vstd::prelude::*;
use crate::canvas::{RgbCanvas, canvas_at, canvas_size, canvas_wf, triple};
use crate::hald_generator::{HaldImageRgbMap, black};
use crate::layout::{lut_side, shades};
use crate::pixel::Pixel;

verus! {

/// Width of the white border around the table, in pixels.
pub const HALD_BORDER: u32 = 10;

/// Width of the gap between neighbouring tiles, in pixels.
pub const TILE_GAP: u32 = 5;

/// The white of the border and of unfilled gap pixels.
pub open spec fn white() -> Pixel {
    Pixel { r: 255, g: 255, b: 255 }
}

/// Side of the rendered image.
pub open spec fn frame_side(level: int) -> int {
    lut_side(level) + 2 * HALD_BORDER + TILE_GAP * (level - 1)
}

/// First image coordinate covered by the table.
pub open spec fn lut_min() -> int {
    HALD_BORDER as int
}

/// Last image coordinate covered by the table, gaps included.
pub open spec fn lut_max(level: int) -> int {
    HALD_BORDER + lut_side(level) - 1 + TILE_GAP * (level - 1)
}

/// Image coordinate `p` falls on a tile (not in a gap) along one axis.
pub open spec fn on_tile_axis(p: int, level: int) -> bool {
    &&& lut_min() <= p <= lut_max(level)
    &&& (p - lut_min()) % (shades(level) + TILE_GAP) < shades(level)
}

/// Image pixel `(x, y)` shows a table cell.
pub open spec fn in_lut(x: int, y: int, level: int) -> bool {
    on_tile_axis(x, level) && on_tile_axis(y, level)
}

/// Image pixel `(x, y)` lies in the square spanned by the table, gaps included.
pub open spec fn in_lut_square(x: int, y: int, level: int) -> bool {
    lut_min() <= x <= lut_max(level) && lut_min() <= y <= lut_max(level)
}

/// Table coordinate shown at image coordinate `p` (on a tile).
pub open spec fn lut_coord(p: int, level: int) -> int {
    p - HALD_BORDER - ((p - lut_min()) / (shades(level) + TILE_GAP)) * TILE_GAP
}

/// Image coordinate at which table coordinate `i` is shown.
pub open spec fn frame_coord(i: int, level: int) -> int {
    HALD_BORDER + i + (i / shades(level)) * TILE_GAP
}

/// The offsets tried, in order, to fill a gap pixel from a tile pixel:
/// first the eight at distance one, then those at distance two.
pub open spec fn neighbour_offsets() -> Seq<(int, int)> {
    seq![
        (-1, 0), (0, -1), (-1, -1), (1, 0), (0, 1), (1, 1), (1, -1), (-1, 1),
        (-2, 0), (0, -2), (-2, -2), (2, 0), (0, 2), (2, 2), (2, -2), (-2, 2),
        (-2, -1), (-2, 1), (2, -1), (2, 1), (-1, -2), (1, -2), (-1, 2), (1, 2),
    ]
}

/// The first offset, from the `k`-th on, that leads from `(x, y)` onto a tile.
pub open spec fn first_neighbour(x: int, y: int, level: int, k: nat) -> Option<nat>
    decreases 24 - k,
{
    if k >= 24 {
        None
    } else if in_lut(x + neighbour_offsets()[k as int].0, y + neighbour_offsets()[k as int].1, level) {
        Some(k)
    } else {
        first_neighbour(x, y, level, k + 1)
    }
}

/// Image pixel `(x, y)`, outside the table square, belongs to one of the
/// L-shaped marks that touch the four corners of the table.
pub open spec fn is_marker(x: int, y: int, level: int) -> bool {
    let lo = lut_min();
    let hi = lut_max(level);
    ||| (x == lo && y < lo) || (y == lo && x < lo)
    ||| (x == hi && y < lo) || (y == lo && x > hi)
    ||| (x == lo && y > hi) || (y == hi && x < lo)
    ||| (x == hi && y > hi) || (y == hi && x > hi)
}

/// The colour of image pixel `(x, y)` when the table `cells` of the given
/// level is rendered.
pub open spec fn hald_frame_pixel(cells: Seq<Seq<Pixel>>, level: int, x: int, y: int) -> Pixel {
    if in_lut(x, y, level) {
        cells[lut_coord(x, level)][lut_coord(y, level)]
    } else if in_lut_square(x, y, level) {
        match first_neighbour(x, y, level, 0) {
            Some(k) => cells[lut_coord(x + neighbour_offsets()[k as int].0, level)][lut_coord(
                y + neighbour_offsets()[k as int].1,
                level,
            )],
            None => white(),
        }
    } else if is_marker(x, y, level) {
        black()
    } else {
        white()
    }
}

/// On a tile, the image coordinate maps to a table coordinate inside the
/// table, and the subtraction that computes it does not go below zero.
pub proof fn lemma_lut_coord(p: int, level: int)
    requires
        level >= 1,
        on_tile_axis(p, level),
    ensures
        0 <= ((p - lut_min()) / (shades(level) + TILE_GAP)) * TILE_GAP <= p - lut_min(),
        0 <= lut_coord(p, level) < lut_side(level),
{
    let n = shades(level);
    let t = p - lut_min();
    let d = n + 5;
    assert(n >= 1) by (nonlinear_arith)
        requires
            n == level * level,
            level >= 1,
    ;
    vstd::arithmetic::div_mod::lemma_fundamental_div_mod(t, d);
    let q = t / d;
    let o = t % d;
    assert(0 <= q) by (nonlinear_arith)
        requires
            t >= 0,
            d > 0,
            q == t / d,
    ;
    assert(q * 5 <= t) by (nonlinear_arith)
        requires
            t == d * q + o,
            0 <= o,
            d == n + 5,
            n >= 1,
            q >= 0,
    ;
    assert(level * d == level * n + 5 * level) by (nonlinear_arith)
        requires
            d == n + 5,
    ;
    assert(d * q < d * level) by (nonlinear_arith)
        requires
            t == d * q + o,
            0 <= o,
            t <= level * n - 1 + 5 * (level - 1),
            level * d == level * n + 5 * level,
    ;
    assert(q < level) by (nonlinear_arith)
        requires
            d * q < d * level,
            d > 0,
    ;
    assert(0 <= t - q * 5 < level * n) by (nonlinear_arith)
        requires
            t == d * q + o,
            0 <= o < n,
            d == n + 5,
            0 <= q < level,
    ;
}

/// Whether image coordinate `p` falls on a tile along one axis.
fn tile_axis_hit(p: u32, level: u32, n: u32, hi: u32) -> (hit: bool)
    requires
        level >= 1,
        n == shades(level as int),
        hi == lut_max(level as int),
        n + TILE_GAP <= u32::MAX,
    ensures
        hit == on_tile_axis(p as int, level as int),
{
    p >= HALD_BORDER && p <= hi && (p - HALD_BORDER) % (n + TILE_GAP) < n
}

/// Table coordinate shown at image coordinate `p`.
fn tile_coord(p: u32, level: u32, n: u32) -> (i: u32)
    requires
        level >= 1,
        n == shades(level as int),
        on_tile_axis(p as int, level as int),
        n + TILE_GAP <= u32::MAX,
    ensures
        i == lut_coord(p as int, level as int),
        i < lut_side(level as int),
{
    proof {
        lemma_lut_coord(p as int, level as int);
    }
    p - HALD_BORDER - (p - HALD_BORDER) / (n + TILE_GAP) * TILE_GAP
}

/// The `k`-th neighbour offset, each component shifted up by two.
fn neighbour_shift(k: usize) -> (s: (u32, u32))
    requires
        k < 24,
    ensures
        s.0 as int - 2 == neighbour_offsets()[k as int].0,
        s.1 as int - 2 == neighbour_offsets()[k as int].1,
        s.0 <= 4,
        s.1 <= 4,
{
    let xs: [u32; 24] = [1, 2, 1, 3, 2, 3, 3, 1, 0, 2, 0, 4, 2, 4, 4, 0, 0, 0, 4, 4, 1, 3, 1, 3];
    let ys: [u32; 24] = [2, 1, 1, 2, 3, 3, 1, 3, 2, 0, 0, 2, 4, 4, 0, 4, 1, 3, 1, 3, 0, 0, 4, 4];
    proof {
        assert(xs@ == seq![1u32, 2, 1, 3, 2, 3, 3, 1, 0, 2, 0, 4, 2, 4, 4, 0, 0, 0, 4, 4, 1, 3, 1, 3]);
        assert(ys@ == seq![2u32, 1, 1, 2, 3, 3, 1, 3, 2, 0, 0, 2, 4, 4, 0, 4, 1, 3, 1, 3, 0, 0, 4, 4]);
    }
    (xs[k], ys[k])
}

impl HaldImageRgbMap {
    /// Colour of image pixel `(x, y)` of the rendered table.
    fn frame_pixel(&self, x: u32, y: u32, n: u32, hi: u32) -> (p: Pixel)
        requires
            self.wf(),
            self.spec_level() >= 1,
            n == shades(self.spec_level()),
            hi == lut_max(self.spec_level()),
            frame_side(self.spec_level()) <= u32::MAX,
            x < frame_side(self.spec_level()),
            y < frame_side(self.spec_level()),
        ensures
            p == hald_frame_pixel(self.cells(), self.spec_level(), x as int, y as int),
    {
        let level = self.level();
        proof {
            self.lemma_wf();
            crate::hald_generator::lemma_level_bounds(level as int);
        }
        if tile_axis_hit(x, level, n, hi) && tile_axis_hit(y, level, n, hi) {
            let i = tile_coord(x, level, n);
            let j = tile_coord(y, level, n);
            self.pixel(i, j)
        } else if x >= HALD_BORDER && x <= hi && y >= HALD_BORDER && y <= hi {
            let mut k: usize = 0;
            while k < 24
                invariant
                    0 <= k <= 24,
                    self.wf(),
                    level == self.spec_level(),
                    level >= 1,
                    n == shades(level as int),
                    hi == lut_max(level as int),
                    frame_side(level as int) <= u32::MAX,
                    lut_side(level as int) <= u32::MAX,
                    n <= lut_side(level as int),
                    HALD_BORDER <= x <= hi,
                    HALD_BORDER <= y <= hi,
                    !in_lut(x as int, y as int, level as int),
                    first_neighbour(x as int, y as int, level as int, 0) == first_neighbour(
                        x as int,
                        y as int,
                        level as int,
                        k as nat,
                    ),
                decreases 24 - k,
            {
                let (sx, sy) = neighbour_shift(k);
                let nx = x + sx - 2;
                let ny = y + sy - 2;
                if tile_axis_hit(nx, level, n, hi) && tile_axis_hit(ny, level, n, hi) {
                    let i = tile_coord(nx, level, n);
                    let j = tile_coord(ny, level, n);
                    return self.pixel(i, j);
                }
                k = k + 1;
            }
            Pixel::new(255, 255, 255)
        } else {
            let lo = HALD_BORDER;
            let marker = (x == lo && y < lo) || (y == lo && x < lo) || (x == hi && y < lo) || (y == lo
                && x > hi) || (x == lo && y > hi) || (y == hi && x < lo) || (x == hi && y > hi) || (y
                == hi && x > hi);
            if marker {
                Pixel::new(0, 0, 0)
            } else {
                Pixel::new(255, 255, 255)
            }
        }
    }

    /// Renders the table as a printable Hald image of side
    /// `level^3 + 2 * 10 + 5 * (level - 1)`: a white border of ten pixels,
    /// the table's tiles of `level^2` pixels separated by gaps of five, each
    /// gap pixel taking the colour of the first tile pixel found among its
    /// neighbours (see `neighbour_offsets`, white when none is), and black
    /// L-shaped marks that touch the four corners of the table.
    #[allow(non_snake_case)]
    pub fn generate_HALD(&self) -> (img: RgbCanvas)
        requires
            self.wf(),
            self.spec_level() >= 1,
            frame_side(self.spec_level()) <= u32::MAX,
            3 * frame_side(self.spec_level()) * frame_side(self.spec_level()) <= isize::MAX,
        ensures
            canvas_size(img) == (frame_side(self.spec_level()) as u32, frame_side(self.spec_level()) as u32),
            canvas_wf(img),
            forall|x: int, y: int|
                0 <= x < frame_side(self.spec_level()) && 0 <= y < frame_side(self.spec_level())
                    ==> #[trigger] canvas_at(img, x, y) == triple(
                    hald_frame_pixel(self.cells(), self.spec_level(), x, y),
                ),
    {
        let level = self.level();
        proof {
            self.lemma_wf();
            crate::hald_generator::lemma_level_bounds(level as int);
        }
        let lut_size = self.side();
        let border = HALD_BORDER;
        let space = TILE_GAP;
        let final_size = lut_size + (border * 2) + space * (level - 1);
        let n = level * level;
        assert(3 * final_size <= 3 * final_size * final_size) by (nonlinear_arith)
            requires
                final_size >= 1,
        ;
        let mut img = RgbCanvas::new(final_size, final_size);
        let ghost cells = self.cells();
        let mut y: u32 = 0;
        while y < final_size
            invariant
                y <= final_size,
                self.wf(),
                level == self.spec_level(),
                level >= 1,
                cells == self.cells(),
                n == shades(level as int),
                final_size == frame_side(level as int),
                frame_side(level as int) <= u32::MAX,
                lut_size == lut_side(level as int),
                border == HALD_BORDER,
                space == TILE_GAP,
                canvas_size(img) == (final_size, final_size),
                canvas_wf(img),
                forall|i: int, j: int|
                    0 <= i < final_size && 0 <= j < y ==> #[trigger] canvas_at(img, i, j) == triple(
                        hald_frame_pixel(cells, level as int, i, j),
                    ),
            decreases final_size - y,
        {
            let mut x: u32 = 0;
            while x < final_size
                invariant
                    x <= final_size,
                    y < final_size,
                    self.wf(),
                    level == self.spec_level(),
                    level >= 1,
                    cells == self.cells(),
                    n == shades(level as int),
                    final_size == frame_side(level as int),
                    frame_side(level as int) <= u32::MAX,
                    lut_size == lut_side(level as int),
                    border == HALD_BORDER,
                    space == TILE_GAP,
                    canvas_size(img) == (final_size, final_size),
                    canvas_wf(img),
                    forall|i: int, j: int|
                        0 <= i < final_size && 0 <= j < final_size && (j < y || (j == y && i < x))
                            ==> #[trigger] canvas_at(img, i, j) == triple(
                            hald_frame_pixel(cells, level as int, i, j),
                        ),
                decreases final_size - x,
            {
                let lut_max = border + lut_size - 1 + space * (level - 1);
                let p = self.frame_pixel(x, y, n, lut_max);
                img.put_pixel(x, y, p);
                x = x + 1;
            }
            y = y + 1;
        }
        img
    }
}

} // verus!
