//! Where each colour index of a Hald lookup table sits in the table image.
//!
//! A table of level `l` has `n = l * l` shades per channel and is stored as a
//! square image of side `l * l * l`, so that its `n * n * n` entries fill the
//! image exactly.  Two layouts are used:
//!
//! * the standard layout: red runs along `x` inside a tile, the high digit of
//!   green (`g / l`) picks the tile column, blue picks the tile row and the low
//!   digit of green (`g % l`) the row inside it;
//! * the squares layout: `l * l` square tiles of side `n`, one per blue value,
//!   red along `x` and green along `y` inside each tile.
use vstd::prelude::*;
use vstd::arithmetic::div_mod::*;

verus! {

/// Number of shades per channel of a table of the given level.
pub open spec fn shades(level: int) -> int {
    level * level
}

/// Side of the square image that holds a table of the given level.
pub open spec fn lut_side(level: int) -> int {
    level * level * level
}

/// Column of colour index `(r, g, _)` in the standard layout.
pub open spec fn std_x(r: int, g: int, level: int) -> int {
    (g / level) * shades(level) + r
}

/// Row of colour index `(_, g, b)` in the standard layout.
pub open spec fn std_y(g: int, b: int, level: int) -> int {
    b * level + g % level
}

/// Red index stored at `(x, y)` in the standard layout.
pub open spec fn std_r(x: int, y: int, level: int) -> int {
    x % shades(level)
}

/// Green index stored at `(x, y)` in the standard layout.
pub open spec fn std_g(x: int, y: int, level: int) -> int {
    (x / shades(level)) * level + y % level
}

/// Blue index stored at `(x, y)` in the standard layout.
pub open spec fn std_b(x: int, y: int, level: int) -> int {
    y / level
}

/// Column of colour index `(r, _, b)` in the squares layout.
pub open spec fn sq_x(r: int, b: int, level: int) -> int {
    (b % level) * shades(level) + r
}

/// Row of colour index `(_, g, b)` in the squares layout.
pub open spec fn sq_y(g: int, b: int, level: int) -> int {
    (b / level) * shades(level) + g
}

/// Red index stored at `(x, y)` in the squares layout.
pub open spec fn sq_r(x: int, y: int, level: int) -> int {
    x % shades(level)
}

/// Green index stored at `(x, y)` in the squares layout.
pub open spec fn sq_g(x: int, y: int, level: int) -> int {
    y % shades(level)
}

/// Blue index stored at `(x, y)` in the squares layout.
pub open spec fn sq_b(x: int, y: int, level: int) -> int {
    (y / shades(level)) * level + x / shades(level)
}

/// Splitting `a < d * d` by `d` gives a quotient and a remainder below `d`.
pub proof fn lemma_split_square(a: int, d: int)
    requires
        d > 0,
        0 <= a < d * d,
    ensures
        0 <= a / d < d,
        0 <= a % d < d,
        a == (a / d) * d + a % d,
{
    lemma_fundamental_div_mod(a, d);
    lemma_remainder(a, d);
    let q = a / d;
    let m = a % d;
    assert(q * d == d * q) by (nonlinear_arith);
    assert(0 <= q < d) by (nonlinear_arith)
        requires
            a == q * d + m,
            0 <= m < d,
            0 <= a < d * d,
            d > 0,
    ;
}

/// Law: in the standard layout the position of an index lies inside the
/// image, and reading that position back gives the index again.
pub proof fn lemma_std_forward(r: int, g: int, b: int, level: int)
    requires
        level >= 1,
        0 <= r < shades(level),
        0 <= g < shades(level),
        0 <= b < shades(level),
    ensures
        0 <= std_x(r, g, level) < lut_side(level),
        0 <= std_y(g, b, level) < lut_side(level),
        std_r(std_x(r, g, level), std_y(g, b, level), level) == r,
        std_g(std_x(r, g, level), std_y(g, b, level), level) == g,
        std_b(std_x(r, g, level), std_y(g, b, level), level) == b,
{
    let n = shades(level);
    lemma_split_square(g, level);
    let q = g / level;
    let m = g % level;
    let x = q * n + r;
    let y = b * level + m;
    assert(n > 0) by (nonlinear_arith)
        requires
            n == level * level,
            level >= 1,
    ;
    lemma_fundamental_div_mod_converse(x, n, q, r);
    lemma_fundamental_div_mod_converse(y, level, b, m);
    assert(0 <= x < level * level * level) by (nonlinear_arith)
        requires
            x == q * n + r,
            0 <= q < level,
            0 <= r < n,
            n == level * level,
    ;
    assert(0 <= y < level * level * level) by (nonlinear_arith)
        requires
            y == b * level + m,
            0 <= b < n,
            0 <= m < level,
            n == level * level,
    ;
}

/// Law: every position of the image holds, in the standard layout, an index
/// whose position is that same place.
pub proof fn lemma_std_backward(x: int, y: int, level: int)
    requires
        level >= 1,
        0 <= x < lut_side(level),
        0 <= y < lut_side(level),
    ensures
        0 <= std_r(x, y, level) < shades(level),
        0 <= std_g(x, y, level) < shades(level),
        0 <= std_b(x, y, level) < shades(level),
        std_x(std_r(x, y, level), std_g(x, y, level), level) == x,
        std_y(std_g(x, y, level), std_b(x, y, level), level) == y,
{
    let n = shades(level);
    assert(n > 0) by (nonlinear_arith)
        requires
            n == level * level,
            level >= 1,
    ;
    lemma_fundamental_div_mod(x, n);
    lemma_remainder(x, n);
    lemma_fundamental_div_mod(y, level);
    lemma_remainder(y, level);
    let q = x / n;
    let r = x % n;
    let b = y / level;
    let m = y % level;
    assert(0 <= q < level) by (nonlinear_arith)
        requires
            x == n * q + r,
            0 <= r < n,
            0 <= x < level * level * level,
            n == level * level,
            level >= 1,
    ;
    assert(0 <= b < n) by (nonlinear_arith)
        requires
            y == level * b + m,
            0 <= m < level,
            0 <= y < level * level * level,
            n == level * level,
            level >= 1,
    ;
    let g = q * level + m;
    assert(0 <= g < n) by (nonlinear_arith)
        requires
            0 <= q < level,
            0 <= m < level,
            g == q * level + m,
            n == level * level,
    ;
    lemma_fundamental_div_mod_converse(g, level, q, m);
    assert(n * q == q * n) by (nonlinear_arith);
    assert(level * b == b * level) by (nonlinear_arith);
}

/// Law: in the squares layout the position of an index lies inside the
/// image, and reading that position back gives the index again.
pub proof fn lemma_sq_forward(r: int, g: int, b: int, level: int)
    requires
        level >= 1,
        0 <= r < shades(level),
        0 <= g < shades(level),
        0 <= b < shades(level),
    ensures
        0 <= sq_x(r, b, level) < lut_side(level),
        0 <= sq_y(g, b, level) < lut_side(level),
        sq_r(sq_x(r, b, level), sq_y(g, b, level), level) == r,
        sq_g(sq_x(r, b, level), sq_y(g, b, level), level) == g,
        sq_b(sq_x(r, b, level), sq_y(g, b, level), level) == b,
{
    let n = shades(level);
    assert(n > 0) by (nonlinear_arith)
        requires
            n == level * level,
            level >= 1,
    ;
    lemma_split_square(b, level);
    let tx = b % level;
    let ty = b / level;
    let x = tx * n + r;
    let y = ty * n + g;
    lemma_fundamental_div_mod_converse(x, n, tx, r);
    lemma_fundamental_div_mod_converse(y, n, ty, g);
    assert(0 <= x < level * level * level) by (nonlinear_arith)
        requires
            x == tx * n + r,
            0 <= tx < level,
            0 <= r < n,
            n == level * level,
    ;
    assert(0 <= y < level * level * level) by (nonlinear_arith)
        requires
            y == ty * n + g,
            0 <= ty < level,
            0 <= g < n,
            n == level * level,
    ;
}

/// Law: every position of the image holds, in the squares layout, an index
/// whose position is that same place.
pub proof fn lemma_sq_backward(x: int, y: int, level: int)
    requires
        level >= 1,
        0 <= x < lut_side(level),
        0 <= y < lut_side(level),
    ensures
        0 <= sq_r(x, y, level) < shades(level),
        0 <= sq_g(x, y, level) < shades(level),
        0 <= sq_b(x, y, level) < shades(level),
        sq_x(sq_r(x, y, level), sq_b(x, y, level), level) == x,
        sq_y(sq_g(x, y, level), sq_b(x, y, level), level) == y,
{
    let n = shades(level);
    assert(n > 0) by (nonlinear_arith)
        requires
            n == level * level,
            level >= 1,
    ;
    lemma_fundamental_div_mod(x, n);
    lemma_remainder(x, n);
    lemma_fundamental_div_mod(y, n);
    lemma_remainder(y, n);
    let tx = x / n;
    let ty = y / n;
    assert(0 <= tx < level) by (nonlinear_arith)
        requires
            x == n * tx + x % n,
            0 <= x % n < n,
            0 <= x < level * level * level,
            n == level * level,
            level >= 1,
    ;
    assert(0 <= ty < level) by (nonlinear_arith)
        requires
            y == n * ty + y % n,
            0 <= y % n < n,
            0 <= y < level * level * level,
            n == level * level,
            level >= 1,
    ;
    let b = ty * level + tx;
    assert(0 <= b < n) by (nonlinear_arith)
        requires
            0 <= tx < level,
            0 <= ty < level,
            b == ty * level + tx,
            n == level * level,
    ;
    lemma_fundamental_div_mod_converse(b, level, ty, tx);
    assert(n * tx == tx * n) by (nonlinear_arith);
    assert(n * ty == ty * n) by (nonlinear_arith);
}

/// Whether the image of a table of this level has a side that fits in `u32`.
pub fn side_fits_u32(level: u32) -> (fits: bool)
    ensures
        fits <==> lut_side(level as int) <= u32::MAX,
{
    if level > 1625 {
        assert(lut_side(level as int) > u32::MAX) by (nonlinear_arith)
            requires
                level > 1625,
        ;
        false
    } else {
        let l = level as u64;
        assert(l * l <= 1625 * 1625) by (nonlinear_arith)
            requires
                l <= 1625,
        ;
        assert(l * l * l <= 1625 * 1625 * 1625) by (nonlinear_arith)
            requires
                l <= 1625,
        ;
        l * l * l <= 0xffff_ffffu64
    }
}

} // verus!
