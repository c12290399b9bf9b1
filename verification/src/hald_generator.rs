//! The lookup table itself: an image of side `level^3` whose cells hold the
//! colours of a Hald table, how it is filled with the identity table in
//! either layout, and how a measured table is inverted.
use vstd::prelude::*;
use crate::layout::{
    lemma_sq_backward, lemma_sq_forward, lemma_std_backward, lemma_std_forward, lut_side, shades,
    sq_b, sq_g, sq_r, sq_x, sq_y, std_b, std_g, std_r, std_x, std_y,
};
use crate::pixel::Pixel;
use crate::tones::ToneScale;

verus! {

/// The black pixel a fresh table is filled with.
pub open spec fn black() -> Pixel {
    Pixel { r: 0, g: 0, b: 0 }
}

/// Green index as the standard generator stores it: the two base-`level`
/// digits of `g` swapped.
pub open spec fn green_swap(g: int, level: int) -> int {
    (g % level) * level + g / level
}

/// Colour the standard generator writes for the index `(r, g, b)`.
pub open spec fn hald_color(tones: ToneScale, r: int, g: int, b: int) -> Pixel {
    Pixel {
        r: tones.byte_of(r),
        g: tones.byte_of(green_swap(g, tones.spec_level())),
        b: tones.byte_of(b),
    }
}

/// Cell `(x, y)` of the identity table in the standard layout.
pub open spec fn std_cell(tones: ToneScale, x: int, y: int) -> Pixel {
    let l = tones.spec_level();
    hald_color(tones, std_r(x, y, l), std_g(x, y, l), std_b(x, y, l))
}

/// Colour that `rgb_from_xy` gives for position `(x, y)`.
pub open spec fn std_rgb(tones: ToneScale, x: int, y: int) -> Pixel {
    let l = tones.spec_level();
    Pixel {
        r: tones.byte_of(std_r(x, y, l)),
        g: tones.byte_of(std_g(x, y, l)),
        b: tones.byte_of(std_b(x, y, l)),
    }
}

/// Position that `xy_from_rgb` gives for a colour.
pub open spec fn std_xy(tones: ToneScale, p: Pixel) -> (int, int) {
    let l = tones.spec_level();
    let r = tones.index_of(p.r as int);
    let g = tones.index_of(p.g as int);
    let b = tones.index_of(p.b as int);
    (std_x(r, g, l), std_y(g, b, l))
}

/// Cell `(x, y)` of the identity table in the squares layout; it is also the
/// colour that `rgb_from_xy_squares` gives for that position.
pub open spec fn sq_cell(tones: ToneScale, x: int, y: int) -> Pixel {
    let l = tones.spec_level();
    Pixel {
        r: tones.byte_of(sq_r(x, y, l)),
        g: tones.byte_of(sq_g(x, y, l)),
        b: tones.byte_of(sq_b(x, y, l)),
    }
}

/// Position that `xy_from_rgb_squares` gives for a colour.
pub open spec fn sq_xy(tones: ToneScale, p: Pixel) -> (int, int) {
    let l = tones.spec_level();
    let r = tones.index_of(p.r as int);
    let g = tones.index_of(p.g as int);
    let b = tones.index_of(p.b as int);
    (sq_x(r, b, l), sq_y(g, b, l))
}

/// Colour the squares generator writes for the index `(r, g, b)`.
pub open spec fn square_color(tones: ToneScale, r: int, g: int, b: int) -> Pixel {
    Pixel { r: tones.byte_of(r), g: tones.byte_of(g), b: tones.byte_of(b) }
}

/// In the standard layout, the stored (digit-swapped) green index of cell
/// `(x, y)` is `(y % level) * level + x / level^2`, and it is a shade.
pub proof fn lemma_green_swap(x: int, y: int, level: int)
    requires
        level >= 1,
        0 <= x < lut_side(level),
        0 <= y < lut_side(level),
    ensures
        green_swap(std_g(x, y, level), level) == (y % level) * level + x / shades(level),
        0 <= (y % level) * level + x / shades(level) < shades(level),
        0 <= (y % level) * level <= (y % level) * level + x / shades(level),
{
    lemma_std_backward(x, y, level);
    let q = x / shades(level);
    let m = y % level;
    let g = std_g(x, y, level);
    assert(0 <= q < level) by {
        assert(q * level <= g) by (nonlinear_arith)
            requires
                g == q * level + m,
                0 <= m,
        ;
        assert(q < level) by (nonlinear_arith)
            requires
                q * level <= g,
                g < level * level,
                level >= 1,
        ;
        assert(q >= 0) by (nonlinear_arith)
            requires
                x >= 0,
                q == x / shades(level),
                shades(level) == level * level,
                level >= 1,
        ;
    }
    vstd::arithmetic::div_mod::lemma_fundamental_div_mod_converse(g, level, q, m);
    assert(0 <= m * level + q < level * level) by (nonlinear_arith)
        requires
            0 <= q < level,
            0 <= m < level,
    ;
    assert(0 <= m * level) by (nonlinear_arith)
        requires
            0 <= m,
            0 <= level,
    ;
}

/// The write that the inversion makes when it visits the `k`-th cell of
/// `src` in row-major order: the position named by the measured colour, and
/// the identity colour of the visited cell.
pub open spec fn reverse_write(src: Seq<Seq<Pixel>>, tones: ToneScale, k: int) -> (int, int, Pixel) {
    let side = lut_side(tones.spec_level());
    let x = k / side;
    let y = k % side;
    let to = std_xy(tones, src[x][y]);
    (to.0, to.1, std_rgb(tones, x, y))
}

/// `start` after the first `k` writes of the inversion of `src`.
pub open spec fn apply_reverse(start: Seq<Seq<Pixel>>, src: Seq<Seq<Pixel>>, tones: ToneScale, k: nat) -> Seq<Seq<Pixel>>
    decreases k,
{
    if k == 0 {
        start
    } else {
        let prev = apply_reverse(start, src, tones, (k - 1) as nat);
        let w = reverse_write(src, tones, k - 1);
        prev.update(w.0, prev[w.0].update(w.1, w.2))
    }
}

/// The inversion of the table `src`: the identity table after every write.
pub open spec fn reversed_table(src: Seq<Seq<Pixel>>, tones: ToneScale) -> Seq<Seq<Pixel>> {
    let side = lut_side(tones.spec_level());
    apply_reverse(std_identity(tones), src, tones, (side * side) as nat)
}

/// A square grid of side `side` whose cell `(x, y)` is `f(x, y)`.
pub open spec fn grid(side: int, f: spec_fn(int, int) -> Pixel) -> Seq<Seq<Pixel>> {
    Seq::new(side as nat, |x: int| Seq::new(side as nat, |y: int| f(x, y)))
}

/// The identity table of the tones' level in the standard layout.
pub open spec fn std_identity(tones: ToneScale) -> Seq<Seq<Pixel>> {
    grid(lut_side(tones.spec_level()), |x: int, y: int| std_cell(tones, x, y))
}

/// The identity table of the tones' level in the squares layout.
pub open spec fn sq_identity(tones: ToneScale) -> Seq<Seq<Pixel>> {
    grid(lut_side(tones.spec_level()), |x: int, y: int| sq_cell(tones, x, y))
}

/// Facts about the arithmetic of a level whose side fits in `u32`.
pub proof fn lemma_level_bounds(level: int)
    requires
        0 <= level,
        lut_side(level) <= u32::MAX,
    ensures
        shades(level) <= lut_side(level) || level == 0,
        level <= shades(level) || level == 0,
        0 <= shades(level),
        0 <= lut_side(level),
        lut_side(level) == shades(level) * level,
        level >= 1 ==> shades(level) >= 1,
{
    assert(shades(level) <= lut_side(level) || level == 0) by (nonlinear_arith)
        requires
            0 <= level,
    ;
    assert(level <= shades(level) || level == 0) by (nonlinear_arith)
        requires
            0 <= level,
    ;
    assert(0 <= shades(level)) by (nonlinear_arith)
        requires
            0 <= level,
    ;
    assert(0 <= lut_side(level)) by (nonlinear_arith)
        requires
            0 <= level,
    ;
    assert(level >= 1 ==> shades(level) >= 1) by (nonlinear_arith)
        requires
            0 <= level,
    ;
}

/// Position of a colour in the standard layout, through the tones' backward
/// quantisation.
pub fn xy_from_rgb(px: Pixel, level: u32, tones: &ToneScale) -> (xy: (u32, u32))
    requires
        tones.wf(),
        tones.spec_level() == level,
        level >= 1,
    ensures
        (xy.0 as int, xy.1 as int) == std_xy(*tones, px),
        xy.0 < lut_side(level as int),
        xy.1 < lut_side(level as int),
{
    proof {
        tones.lemma_wf();
        lemma_level_bounds(level as int);
    }
    let n: u32 = level * level;
    let r = tones.index(px.r);
    let g = tones.index(px.g);
    let b = tones.index(px.b);
    proof {
        lemma_std_forward(r as int, g as int, b as int, level as int);
        assert((g / level) as int * n <= std_x(r as int, g as int, level as int));
        assert(b as int * level <= std_y(g as int, b as int, level as int));
    }
    let tile_x = g / level;
    let tile_y = b;
    let x = tile_x * n + r;
    let y = tile_y * level + g % level;
    (x, y)
}

/// Colour of position `(x, y)` in the standard layout: its three indices,
/// each through the tones' forward quantisation.
pub fn rgb_from_xy(x: u32, y: u32, level: u32, tones: &ToneScale) -> (p: Pixel)
    requires
        tones.wf(),
        tones.spec_level() == level,
        level >= 1,
        x < lut_side(level as int),
        y < lut_side(level as int),
    ensures
        p == std_rgb(*tones, x as int, y as int),
{
    proof {
        tones.lemma_wf();
        lemma_level_bounds(level as int);
        lemma_std_backward(x as int, y as int, level as int);
        assert((x as int / shades(level as int)) * level <= std_g(x as int, y as int, level as int));
    }
    let n: u32 = level * level;
    let r_idx = x % n;
    let b_idx = y / level;
    let tile_x = x / n;
    let g_rem = y % level;
    let g_idx = tile_x * level + g_rem;
    Pixel::new(tones.byte(r_idx), tones.byte(g_idx), tones.byte(b_idx))
}

/// Position of a colour in the squares layout, through the tones' backward
/// quantisation.
pub fn xy_from_rgb_squares(px: Pixel, level: u32, tones: &ToneScale) -> (xy: (u32, u32))
    requires
        tones.wf(),
        tones.spec_level() == level,
        level >= 1,
    ensures
        (xy.0 as int, xy.1 as int) == sq_xy(*tones, px),
        xy.0 < lut_side(level as int),
        xy.1 < lut_side(level as int),
{
    proof {
        tones.lemma_wf();
        lemma_level_bounds(level as int);
    }
    let n: u32 = level * level;
    let r = tones.index(px.r);
    let g = tones.index(px.g);
    let b = tones.index(px.b);
    proof {
        lemma_sq_forward(r as int, g as int, b as int, level as int);
        assert((b % level) as int * n <= sq_x(r as int, b as int, level as int));
        assert((b / level) as int * n <= sq_y(g as int, b as int, level as int));
    }
    let tile_x = b % level;
    let tile_y = b / level;
    let x = tile_x * n + r;
    let y = tile_y * n + g;
    (x, y)
}

/// Colour of position `(x, y)` in the squares layout.
pub fn rgb_from_xy_squares(x: u32, y: u32, level: u32, tones: &ToneScale) -> (p: Pixel)
    requires
        tones.wf(),
        tones.spec_level() == level,
        level >= 1,
        x < lut_side(level as int),
        y < lut_side(level as int),
    ensures
        p == sq_cell(*tones, x as int, y as int),
{
    proof {
        tones.lemma_wf();
        lemma_level_bounds(level as int);
        lemma_sq_backward(x as int, y as int, level as int);
        assert((y as int / shades(level as int)) * level <= sq_b(x as int, y as int, level as int));
    }
    let n: u32 = level * level;
    let r_idx = x % n;
    let g_idx = y % n;
    let tile_y = y / n;
    let b_rem = x / n;
    let b_idx = tile_y * level + b_rem;
    Pixel::new(tones.byte(r_idx), tones.byte(g_idx), tones.byte(b_idx))
}

/// Whether `cells` is a square grid of the given side.
pub open spec fn is_square(cells: Seq<Seq<Pixel>>, side: int) -> bool {
    &&& cells.len() == side
    &&& forall|i: int| 0 <= i < side ==> (#[trigger] cells[i]).len() == side
}

/// A Hald lookup table: `map[x][y]` is the colour stored at column `x`, row
/// `y` of an image of side `level^3`.
#[derive(Debug)]
pub struct HaldImageRgbMap {
    level: u32,
    map: Vec<Vec<Pixel>>,
}

impl HaldImageRgbMap {
    /// The level of the table.
    pub closed spec fn spec_level(self) -> int {
        self.level as int
    }

    /// The cells of the table, indexed `[x][y]`.
    pub closed spec fn cells(self) -> Seq<Seq<Pixel>> {
        self.map@.map_values(|row: Vec<Pixel>| row@)
    }

    /// The table is a square grid of side `level^3`, and that side fits in `u32`.
    pub closed spec fn wf(self) -> bool {
        &&& lut_side(self.level as int) <= u32::MAX
        &&& is_square(self.cells(), lut_side(self.level as int))
    }

    /// Facts that follow from well-formedness.
    pub proof fn lemma_wf(self)
        requires
            self.wf(),
        ensures
            lut_side(self.spec_level()) <= u32::MAX,
            is_square(self.cells(), lut_side(self.spec_level())),
            self.spec_level() >= 0,
    {
    }

    /// Builds a table from rows of cells.
    fn from_rows(level: u32, map: Vec<Vec<Pixel>>, Ghost(expected): Ghost<Seq<Seq<Pixel>>>) -> (m: Self)
        requires
            lut_side(level as int) <= u32::MAX,
            map@.len() == expected.len(),
            forall|i: int| 0 <= i < expected.len() ==> (#[trigger] map@[i])@ == expected[i],
        ensures
            m.spec_level() == level,
            m.cells() == expected,
    {
        let m = HaldImageRgbMap { level, map };
        assert(m.cells() =~= expected);
        m
    }

    /// A table of the given level with every cell black.
    pub fn new(level: u32) -> (m: Self)
        requires
            lut_side(level as int) <= u32::MAX,
        ensures
            m.wf(),
            m.spec_level() == level,
            m.cells() == grid(lut_side(level as int), |x: int, y: int| black()),
    {
        proof {
            lemma_level_bounds(level as int);
        }
        let size: u32 = level * level * level;
        let ghost expected = grid(size as int, |x: int, y: int| black());
        let mut map: Vec<Vec<Pixel>> = Vec::new();
        let mut x: u32 = 0;
        while x < size
            invariant
                x <= size,
                map@.len() == x,
                expected == grid(size as int, |x: int, y: int| black()),
                forall|i: int| 0 <= i < x ==> (#[trigger] map@[i])@ == expected[i],
            decreases size - x,
        {
            let mut row: Vec<Pixel> = Vec::new();
            let mut y: u32 = 0;
            while y < size
                invariant
                    y <= size,
                    row@.len() == y,
                    forall|j: int| 0 <= j < y ==> #[trigger] row@[j] == black(),
                decreases size - y,
            {
                row.push(Pixel::new(0, 0, 0));
                y = y + 1;
            }
            assert(row@ =~= expected[x as int]);
            map.push(row);
            x = x + 1;
        }
        HaldImageRgbMap::from_rows(level, map, Ghost(expected))
    }

    /// Fills the table with the identity lookup table in the standard
    /// layout: the colour of index `(r, g, b)` goes to column
    /// `(g / level) * level^2 + r`, row `b * level + g % level`, with the digits
    /// of its green index swapped.
    pub fn generate_hald_map(&mut self, tones: &ToneScale)
        requires
            old(self).wf(),
            tones.wf(),
            tones.spec_level() == old(self).spec_level(),
        ensures
            final(self).wf(),
            final(self).spec_level() == old(self).spec_level(),
            final(self).cells() == std_identity(*tones),
            forall|r: int, g: int, b: int|
                0 <= r < shades(old(self).spec_level()) && 0 <= g < shades(old(self).spec_level())
                    && 0 <= b < shades(old(self).spec_level()) ==> final(self).cells()[std_x(
                    r,
                    g,
                    old(self).spec_level(),
                )][std_y(g, b, old(self).spec_level())] == #[trigger] hald_color(*tones, r, g, b),
    {
        let level = self.level;
        proof {
            lemma_level_bounds(level as int);
        }
        let n: u32 = level * level;
        let size: u32 = n * level;
        let ghost expected = std_identity(*tones);
        let mut map: Vec<Vec<Pixel>> = Vec::new();
        let mut x: u32 = 0;
        while x < size
            invariant
                x <= size,
                tones.wf(),
                tones.spec_level() == level,
                n == shades(level as int),
                size == lut_side(level as int),
                lut_side(level as int) <= u32::MAX,
                map@.len() == x,
                expected == std_identity(*tones),
                forall|i: int| 0 <= i < x ==> (#[trigger] map@[i])@ == expected[i],
            decreases size - x,
        {
            let mut row: Vec<Pixel> = Vec::new();
            let mut y: u32 = 0;
            while y < size
                invariant
                    x < size,
                    y <= size,
                    tones.wf(),
                    tones.spec_level() == level,
                    n == shades(level as int),
                    size == lut_side(level as int),
                    lut_side(level as int) <= u32::MAX,
                    row@.len() == y,
                    forall|j: int| 0 <= j < y ==> #[trigger] row@[j] == std_cell(*tones, x as int, j),
                decreases size - y,
            {
                proof {
                    lemma_level_bounds(level as int);
                    lemma_std_backward(x as int, y as int, level as int);
                    lemma_green_swap(x as int, y as int, level as int);
                }
                let r = x % n;
                let g = (y % level) * level + x / n;
                let b = y / level;
                row.push(Pixel::new(tones.byte(r), tones.byte(g), tones.byte(b)));
                y = y + 1;
            }
            assert(row@ =~= expected[x as int]);
            map.push(row);
            x = x + 1;
        }
        *self = HaldImageRgbMap::from_rows(level, map, Ghost(expected));
        proof {
            let l = level as int;
            assert forall|r: int, g: int, b: int|
                0 <= r < shades(l) && 0 <= g < shades(l) && 0 <= b < shades(l) implies self.cells()[std_x(
                r,
                g,
                l,
            )][std_y(g, b, l)] == #[trigger] hald_color(*tones, r, g, b) by {
                lemma_std_forward(r, g, b, l);
            }
        }
    }

    /// Fills the table with the identity lookup table in the squares layout:
    /// the colour of index `(r, g, b)` goes to column
    /// `(b % level) * level^2 + r`, row `(b / level) * level^2 + g`.
    pub fn generate_hald_map_squares(&mut self, tones: &ToneScale)
        requires
            old(self).wf(),
            old(self).spec_level() >= 1,
            tones.wf(),
            tones.spec_level() == old(self).spec_level(),
        ensures
            final(self).wf(),
            final(self).spec_level() == old(self).spec_level(),
            final(self).cells() == sq_identity(*tones),
            forall|r: int, g: int, b: int|
                0 <= r < shades(old(self).spec_level()) && 0 <= g < shades(old(self).spec_level())
                    && 0 <= b < shades(old(self).spec_level()) ==> final(self).cells()[sq_x(
                    r,
                    b,
                    old(self).spec_level(),
                )][sq_y(g, b, old(self).spec_level())] == #[trigger] square_color(*tones, r, g, b),
    {
        let level = self.level;
        proof {
            lemma_level_bounds(level as int);
        }
        let n: u32 = level * level;
        let size: u32 = n * level;
        let ghost expected = sq_identity(*tones);
        let mut map: Vec<Vec<Pixel>> = Vec::new();
        let mut x: u32 = 0;
        while x < size
            invariant
                x <= size,
                level >= 1,
                tones.wf(),
                tones.spec_level() == level,
                n == shades(level as int),
                size == lut_side(level as int),
                lut_side(level as int) <= u32::MAX,
                map@.len() == x,
                expected == sq_identity(*tones),
                forall|i: int| 0 <= i < x ==> (#[trigger] map@[i])@ == expected[i],
            decreases size - x,
        {
            let mut row: Vec<Pixel> = Vec::new();
            let mut y: u32 = 0;
            while y < size
                invariant
                    x < size,
                    y <= size,
                    level >= 1,
                    tones.wf(),
                    tones.spec_level() == level,
                    n == shades(level as int),
                    size == lut_side(level as int),
                    lut_side(level as int) <= u32::MAX,
                    row@.len() == y,
                    forall|j: int| 0 <= j < y ==> #[trigger] row@[j] == sq_cell(*tones, x as int, j),
                decreases size - y,
            {
                proof {
                    lemma_level_bounds(level as int);
                    lemma_sq_backward(x as int, y as int, level as int);
                    assert((y as int / n as int) * level <= sq_b(x as int, y as int, level as int));
                }
                let r = x % n;
                let g = y % n;
                let b = (y / n) * level + x / n;
                row.push(Pixel::new(tones.byte(r), tones.byte(g), tones.byte(b)));
                y = y + 1;
            }
            assert(row@ =~= expected[x as int]);
            map.push(row);
            x = x + 1;
        }
        *self = HaldImageRgbMap::from_rows(level, map, Ghost(expected));
        proof {
            let l = level as int;
            assert forall|r: int, g: int, b: int|
                0 <= r < shades(l) && 0 <= g < shades(l) && 0 <= b < shades(l) implies self.cells()[sq_x(
                r,
                b,
                l,
            )][sq_y(g, b, l)] == #[trigger] square_color(*tones, r, g, b) by {
                lemma_sq_forward(r, g, b, l);
            }
        }
    }

    /// Inverts a measured table.  A fresh identity table (standard layout)
    /// is made; then, visiting the cells of `self` row by row (`x` outer, `y`
    /// inner), the measured colour at `(x, y)` is looked up as a position
    /// `(x2, y2)` and the identity colour of `(x, y)` is stored there.  Later
    /// visits overwrite earlier ones.
    pub fn reverse_map(self, tones: &ToneScale) -> (m: Self)
        requires
            self.wf(),
            tones.wf(),
            tones.spec_level() == self.spec_level(),
        ensures
            m.wf(),
            m.spec_level() == self.spec_level(),
            m.cells() == reversed_table(self.cells(), *tones),
    {
        let level = self.level;
        proof {
            lemma_level_bounds(level as int);
        }
        let mut map = HaldImageRgbMap::new(level);
        map.generate_hald_map(tones);
        let size = self.side();
        let ghost src = self.cells();
        let ghost start = std_identity(*tones);
        let mut x: u32 = 0;
        while x < size
            invariant
                x <= size,
                self.wf(),
                self.spec_level() == level,
                src == self.cells(),
                tones.wf(),
                tones.spec_level() == level,
                size == lut_side(level as int),
                lut_side(level as int) <= u32::MAX,
                map.wf(),
                map.spec_level() == level,
                start == std_identity(*tones),
                map.cells() == apply_reverse(start, src, *tones, (x * size) as nat),
            decreases size - x,
        {
            let mut y: u32 = 0;
            while y < size
                invariant
                    x < size,
                    y <= size,
                    self.wf(),
                    self.spec_level() == level,
                    src == self.cells(),
                    tones.wf(),
                    tones.spec_level() == level,
                    size == lut_side(level as int),
                    lut_side(level as int) <= u32::MAX,
                    map.wf(),
                    map.spec_level() == level,
                    start == std_identity(*tones),
                    map.cells() == apply_reverse(start, src, *tones, (x * size + y) as nat),
                decreases size - y,
            {
                proof {
                    assert(level >= 1) by (nonlinear_arith)
                        requires
                            size == level as int * level * level,
                            size > 0,
                            level >= 0,
                    ;
                    let k = x * size + y;
                    assert(0 <= k) by (nonlinear_arith)
                        requires
                            k == x * size + y,
                            x >= 0,
                            size >= 0,
                            y >= 0,
                    ;
                    vstd::arithmetic::div_mod::lemma_fundamental_div_mod_converse(k, size as int, x as int, y as int);
                }
                let px = self.pixel(x, y);
                let (x2, y2) = xy_from_rgb(px, level, tones);
                let rgb = rgb_from_xy(x, y, level, tones);
                map.set_pixel(x2, y2, rgb);
                y = y + 1;
            }
            proof {
                assert(x * size + size == (x + 1) * size) by (nonlinear_arith);
            }
            x = x + 1;
        }
        map
    }

    /// The level of the table.
    pub fn level(&self) -> (l: u32)
        ensures
            l == self.spec_level(),
    {
        self.level
    }

    /// Side of the table image, `level^3`.
    pub fn side(&self) -> (s: u32)
        requires
            self.wf(),
        ensures
            s == lut_side(self.spec_level()),
    {
        proof {
            lemma_level_bounds(self.level as int);
        }
        self.level * self.level * self.level
    }

    /// The colour stored at column `x`, row `y`.
    pub fn pixel(&self, x: u32, y: u32) -> (p: Pixel)
        requires
            self.wf(),
            x < lut_side(self.spec_level()),
            y < lut_side(self.spec_level()),
        ensures
            p == self.cells()[x as int][y as int],
    {
        assert(self.cells()[x as int] == self.map@[x as int]@);
        self.map[x as usize][y as usize]
    }

    /// Stores a colour at column `x`, row `y`.
    pub fn set_pixel(&mut self, x: u32, y: u32, p: Pixel)
        requires
            old(self).wf(),
            x < lut_side(old(self).spec_level()),
            y < lut_side(old(self).spec_level()),
        ensures
            final(self).wf(),
            final(self).spec_level() == old(self).spec_level(),
            final(self).cells() == old(self).cells().update(
                x as int,
                old(self).cells()[x as int].update(y as int, p),
            ),
    {
        assert(self.cells()[x as int] == self.map@[x as int]@);
        self.map[x as usize][y as usize] = p;
        assert(self.cells() =~= old(self).cells().update(
            x as int,
            old(self).cells()[x as int].update(y as int, p),
        ));
    }
}

} // verus!
