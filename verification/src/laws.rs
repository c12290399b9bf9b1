//! Properties of the library as a whole.
use vstd::prelude::*;
use vstd::arithmetic::div_mod::{lemma_fundamental_div_mod, lemma_fundamental_div_mod_converse};
use crate::grid_overlay::{gap_center, on_grid_line};
use crate::hald_frame::{frame_coord, hald_frame_pixel, in_lut, lut_coord, on_tile_axis};
use crate::hald_generator::{
    apply_reverse, green_swap, is_square, lemma_green_swap, lemma_level_bounds, reverse_write, reversed_table,
    sq_cell, sq_identity, sq_xy, std_cell, std_identity, std_rgb, std_xy,
};
use crate::layout::{
    lemma_split_square, lemma_sq_backward, lemma_sq_forward, lemma_std_backward, sq_b, sq_g, sq_r, sq_x, sq_y, lemma_std_forward, lut_side,
    shades, std_b, std_g, std_r, std_x, std_y,
};
use crate::pixel::Pixel;
use crate::reconstruct::{SquaresInsert, squares_plan};
use crate::tones::ToneScale;

verus! {

/// Swapping the two base-`level` digits of a shade twice gives it back, and
/// a swapped shade is a shade.
pub proof fn lemma_green_swap_involution(g: int, level: int)
    requires
        level >= 1,
        0 <= g < shades(level),
    ensures
        0 <= green_swap(g, level) < shades(level),
        green_swap(green_swap(g, level), level) == g,
{
    lemma_split_square(g, level);
    let q = g / level;
    let m = g % level;
    let s = m * level + q;
    assert(0 <= s < level * level) by (nonlinear_arith)
        requires
            0 <= q < level,
            0 <= m < level,
            s == m * level + q,
    ;
    lemma_fundamental_div_mod_converse(s, level, m, q);
}

/// Law: with tones that survive a round trip, the position that
/// `xy_from_rgb` gives for the colour that `rgb_from_xy` gives for `(x, y)`
/// is `(x, y)` again.
pub proof fn lemma_std_position_round_trip(tones: ToneScale, x: int, y: int)
    requires
        tones.wf(),
        tones.round_trips(),
        tones.spec_level() >= 1,
        0 <= x < lut_side(tones.spec_level()),
        0 <= y < lut_side(tones.spec_level()),
    ensures
        std_xy(tones, std_rgb(tones, x, y)) == (x, y),
{
    let l = tones.spec_level();
    lemma_std_backward(x, y, l);
    let r = std_r(x, y, l);
    let g = std_g(x, y, l);
    let b = std_b(x, y, l);
    assert(tones.index_of(tones.byte_of(r) as int) == r);
    assert(tones.index_of(tones.byte_of(g) as int) == g);
    assert(tones.index_of(tones.byte_of(b) as int) == b);
}

/// Law: with tones that survive a round trip, the position that
/// `xy_from_rgb_squares` gives for the colour that `rgb_from_xy_squares`
/// gives for `(x, y)` is `(x, y)` again.
pub proof fn lemma_sq_position_round_trip(tones: ToneScale, x: int, y: int)
    requires
        tones.wf(),
        tones.round_trips(),
        tones.spec_level() >= 1,
        0 <= x < lut_side(tones.spec_level()),
        0 <= y < lut_side(tones.spec_level()),
    ensures
        sq_xy(tones, sq_cell(tones, x, y)) == (x, y),
{
    let l = tones.spec_level();
    lemma_sq_backward(x, y, l);
    let r = crate::layout::sq_r(x, y, l);
    let g = crate::layout::sq_g(x, y, l);
    let b = crate::layout::sq_b(x, y, l);
    assert(tones.index_of(tones.byte_of(r) as int) == r);
    assert(tones.index_of(tones.byte_of(g) as int) == g);
    assert(tones.index_of(tones.byte_of(b) as int) == b);
}

/// Law: a cell of the squares identity table holds the colour that
/// `rgb_from_xy_squares` gives for its position.
pub proof fn lemma_squares_table_matches_coordinates(tones: ToneScale, x: int, y: int)
    requires
        0 <= x < lut_side(tones.spec_level()),
        0 <= y < lut_side(tones.spec_level()),
    ensures
        sq_identity(tones)[x][y] == sq_cell(tones, x, y),
{
}

/// Law: a cell of the standard identity table holds the colour that
/// `rgb_from_xy` gives for its position when swapping the two digits of its
/// green index leaves that index unchanged (the generator stores the
/// swapped green index, `rgb_from_xy` the plain one).
pub proof fn lemma_std_table_matches_coordinates(tones: ToneScale, x: int, y: int)
    requires
        tones.wf(),
        tones.spec_level() >= 1,
        0 <= x < lut_side(tones.spec_level()),
        0 <= y < lut_side(tones.spec_level()),
        green_swap(std_g(x, y, tones.spec_level()), tones.spec_level()) == std_g(x, y, tones.spec_level()),
    ensures
        std_identity(tones)[x][y] == std_rgb(tones, x, y),
{
}

/// With round-trip tones, every write of the inversion of the identity
/// table stores at its target the colour the identity table already has
/// there.
proof fn lemma_identity_write_is_noop(tones: ToneScale, k: int)
    requires
        tones.wf(),
        tones.round_trips(),
        tones.spec_level() >= 1,
        0 <= k < lut_side(tones.spec_level()) * lut_side(tones.spec_level()),
    ensures
        ({
            let w = reverse_write(std_identity(tones), tones, k);
            &&& 0 <= w.0 < lut_side(tones.spec_level())
            &&& 0 <= w.1 < lut_side(tones.spec_level())
            &&& w.2 == std_identity(tones)[w.0][w.1]
        }),
{
    let l = tones.spec_level();
    let side = lut_side(l);
    tones.lemma_wf();
    lemma_level_bounds(l);
    assert(side > 0);
    lemma_fundamental_div_mod(k, side);
    let x = k / side;
    let y = k % side;
    assert(0 <= x < side) by (nonlinear_arith)
        requires
            k == side * x + y,
            0 <= y < side,
            0 <= k < side * side,
    ;
    lemma_std_backward(x, y, l);
    let r = std_r(x, y, l);
    let g = std_g(x, y, l);
    let b = std_b(x, y, l);
    lemma_green_swap_involution(g, l);
    let sg = green_swap(g, l);
    assert(tones.index_of(tones.byte_of(r) as int) == r);
    assert(tones.index_of(tones.byte_of(sg) as int) == sg);
    assert(tones.index_of(tones.byte_of(b) as int) == b);
    assert(std_identity(tones)[x][y] == std_cell(tones, x, y));
    lemma_std_forward(r, sg, b, l);
    let x2 = std_x(r, sg, l);
    let y2 = std_y(sg, b, l);
    assert(std_identity(tones)[x2][y2] == std_cell(tones, x2, y2));
}

/// Law: with tones that survive a round trip, inverting the identity table
/// (standard layout) gives the identity table back.
pub proof fn lemma_reverse_of_identity(tones: ToneScale)
    requires
        tones.wf(),
        tones.round_trips(),
    ensures
        reversed_table(std_identity(tones), tones) == std_identity(tones),
{
    let l = tones.spec_level();
    let side = lut_side(l);
    tones.lemma_wf();
    lemma_level_bounds(l);
    assert(side * side >= 0) by (nonlinear_arith);
    lemma_identity_prefix(tones, (side * side) as nat);
}

/// Every prefix of the inversion of the identity table leaves it unchanged.
proof fn lemma_identity_prefix(tones: ToneScale, k: nat)
    requires
        tones.wf(),
        tones.round_trips(),
        k <= lut_side(tones.spec_level()) * lut_side(tones.spec_level()),
    ensures
        apply_reverse(std_identity(tones), std_identity(tones), tones, k) == std_identity(tones),
    decreases k,
{
    if k > 0 {
        let l = tones.spec_level();
        tones.lemma_wf();
        lemma_level_bounds(l);
        assert(l >= 1) by (nonlinear_arith)
            requires
                k <= lut_side(l) * lut_side(l),
                k > 0,
                lut_side(l) == l * l * l,
                l >= 0,
        ;
        lemma_identity_prefix(tones, (k - 1) as nat);
        lemma_identity_write_is_noop(tones, k - 1);
        let id = std_identity(tones);
        let w = reverse_write(id, tones, k - 1);
        assert(id.update(w.0, id[w.0].update(w.1, w.2)) =~= id) by {
            assert(id[w.0].update(w.1, w.2) =~= id[w.0]);
        }
    }
}

/// The last of the first `k` writes of the inversion of `src` that targets
/// position `(x, y)`.
pub open spec fn last_write_to(src: Seq<Seq<Pixel>>, tones: ToneScale, x: int, y: int, k: nat) -> Option<int>
    decreases k,
{
    if k == 0 {
        None
    } else {
        let w = reverse_write(src, tones, k - 1);
        if w.0 == x && w.1 == y {
            Some(k - 1)
        } else {
            last_write_to(src, tones, x, y, (k - 1) as nat)
        }
    }
}

/// Law: cell `(x, y)` of an inverted table holds the identity colour of the
/// last cell, in row-major order, whose measured colour names position
/// `(x, y)`; where no cell names it, the identity colour of `(x, y)` stays.
pub proof fn lemma_reverse_cell(src: Seq<Seq<Pixel>>, tones: ToneScale, x: int, y: int)
    requires
        tones.wf(),
        tones.spec_level() >= 1,
        is_square(src, lut_side(tones.spec_level())),
        0 <= x < lut_side(tones.spec_level()),
        0 <= y < lut_side(tones.spec_level()),
    ensures
        reversed_table(src, tones)[x][y] == match last_write_to(
            src,
            tones,
            x,
            y,
            (lut_side(tones.spec_level()) * lut_side(tones.spec_level())) as nat,
        ) {
            Some(j) => reverse_write(src, tones, j).2,
            None => std_identity(tones)[x][y],
        },
{
    let side = lut_side(tones.spec_level());
    tones.lemma_wf();
    lemma_level_bounds(tones.spec_level());
    assert(side * side >= 0) by (nonlinear_arith);
    lemma_reverse_cell_prefix(src, tones, x, y, (side * side) as nat);
}

/// The writes of the inversion stay inside the table.
proof fn lemma_write_in_range(src: Seq<Seq<Pixel>>, tones: ToneScale, k: int)
    requires
        tones.wf(),
        tones.spec_level() >= 1,
        is_square(src, lut_side(tones.spec_level())),
        0 <= k < lut_side(tones.spec_level()) * lut_side(tones.spec_level()),
    ensures
        0 <= reverse_write(src, tones, k).0 < lut_side(tones.spec_level()),
        0 <= reverse_write(src, tones, k).1 < lut_side(tones.spec_level()),
{
    let l = tones.spec_level();
    let side = lut_side(l);
    tones.lemma_wf();
    lemma_level_bounds(l);
    lemma_fundamental_div_mod(k, side);
    let x = k / side;
    let y = k % side;
    assert(0 <= x < side) by (nonlinear_arith)
        requires
            k == side * x + y,
            0 <= y < side,
            0 <= k < side * side,
    ;
    assert(src[x].len() == side);
    let p = src[x][y];
    lemma_std_forward(
        tones.index_of(p.r as int),
        tones.index_of(p.g as int),
        tones.index_of(p.b as int),
        l,
    );
}

/// The cell statement of `lemma_reverse_cell` for every prefix of writes.
proof fn lemma_reverse_cell_prefix(src: Seq<Seq<Pixel>>, tones: ToneScale, x: int, y: int, k: nat)
    requires
        tones.wf(),
        tones.spec_level() >= 1,
        is_square(src, lut_side(tones.spec_level())),
        0 <= x < lut_side(tones.spec_level()),
        0 <= y < lut_side(tones.spec_level()),
        k <= lut_side(tones.spec_level()) * lut_side(tones.spec_level()),
    ensures
        is_square(apply_reverse(std_identity(tones), src, tones, k), lut_side(tones.spec_level())),
        apply_reverse(std_identity(tones), src, tones, k)[x][y] == match last_write_to(src, tones, x, y, k) {
            Some(j) => reverse_write(src, tones, j).2,
            None => std_identity(tones)[x][y],
        },
    decreases k,
{
    let side = lut_side(tones.spec_level());
    if k == 0 {
        assert forall|i: int| 0 <= i < side implies (#[trigger] std_identity(tones)[i]).len() == side by {}
    } else {
        lemma_reverse_cell_prefix(src, tones, x, y, (k - 1) as nat);
        lemma_write_in_range(src, tones, k - 1);
        let prev = apply_reverse(std_identity(tones), src, tones, (k - 1) as nat);
        let w = reverse_write(src, tones, k - 1);
        let next = prev.update(w.0, prev[w.0].update(w.1, w.2));
        assert(next == apply_reverse(std_identity(tones), src, tones, k));
        assert forall|i: int| 0 <= i < side implies (#[trigger] next[i]).len() == side by {
            if i == w.0 {
            } else {
                assert(next[i] == prev[i]);
            }
        }
    }
}

/// Law: with tones that survive a round trip, the squares inversion of the
/// identity table (squares layout) keeps every cell, each sent to its own
/// position with its own identity colour.
pub proof fn lemma_squares_plan_of_identity(tones: ToneScale, k: nat)
    requires
        tones.wf(),
        tones.round_trips(),
        k <= lut_side(tones.spec_level()) * lut_side(tones.spec_level()),
    ensures
        squares_plan(sq_identity(tones), tones, k) == Seq::new(
            k,
            |i: int|
                {
                    let side = lut_side(tones.spec_level());
                    SquaresInsert {
                        x: (i / side) as u32,
                        y: (i % side) as u32,
                        x2: (i / side) as u32,
                        y2: (i % side) as u32,
                        color: sq_cell(tones, i / side, i % side),
                    }
                },
        ),
    decreases k,
{
    let l = tones.spec_level();
    let side = lut_side(l);
    let expected = Seq::new(
        k,
        |i: int|
            SquaresInsert {
                x: (i / side) as u32,
                y: (i % side) as u32,
                x2: (i / side) as u32,
                y2: (i % side) as u32,
                color: sq_cell(tones, i / side, i % side),
            },
    );
    if k == 0 {
        assert(squares_plan(sq_identity(tones), tones, k) =~= expected);
    } else {
        tones.lemma_wf();
        lemma_level_bounds(l);
        assert(l >= 1) by (nonlinear_arith)
            requires
                k <= lut_side(l) * lut_side(l),
                k > 0,
                lut_side(l) == l * l * l,
                l >= 0,
        ;
        lemma_squares_plan_of_identity(tones, (k - 1) as nat);
        let j = k - 1;
        lemma_fundamental_div_mod(j, side);
        let x = j / side;
        let y = j % side;
        assert(0 <= x < side) by (nonlinear_arith)
            requires
                j == side * x + y,
                0 <= y < side,
                0 <= j < side * side,
        ;
        assert(sq_identity(tones)[x][y] == sq_cell(tones, x, y));
        lemma_sq_position_round_trip(tones, x, y);
        assert(squares_plan(sq_identity(tones), tones, k) =~= expected);
    }
}

/// Law: in the rendered image, table cell `(x, y)` is shown at
/// `(frame_coord(x), frame_coord(y))`: ten pixels of border, then the cell's
/// offset, plus a gap of five pixels for every whole tile before it.
pub proof fn lemma_frame_shows_cell(cells: Seq<Seq<Pixel>>, level: int, x: int, y: int)
    requires
        level >= 1,
        0 <= x < lut_side(level),
        0 <= y < lut_side(level),
    ensures
        in_lut(frame_coord(x, level), frame_coord(y, level), level),
        hald_frame_pixel(cells, level, frame_coord(x, level), frame_coord(y, level)) == cells[x][y],
{
    lemma_frame_coord(x, level);
    lemma_frame_coord(y, level);
}

/// A table coordinate is shown on a tile, and reading that image coordinate
/// back gives the table coordinate.
pub proof fn lemma_frame_coord(i: int, level: int)
    requires
        level >= 1,
        0 <= i < lut_side(level),
    ensures
        on_tile_axis(frame_coord(i, level), level),
        lut_coord(frame_coord(i, level), level) == i,
{
    let n = shades(level);
    assert(n >= 1) by (nonlinear_arith)
        requires
            n == level * level,
            level >= 1,
    ;
    lemma_fundamental_div_mod(i, n);
    let q = i / n;
    let o = i % n;
    assert(0 <= q < level) by (nonlinear_arith)
        requires
            i == n * q + o,
            0 <= o < n,
            0 <= i < level * level * level,
            n == level * level,
    ;
    let t = i + q * 5;
    assert(t == q * (n + 5) + o) by (nonlinear_arith)
        requires
            i == n * q + o,
            t == i + q * 5,
    ;
    lemma_fundamental_div_mod_converse(t, n + 5, q, o);
    assert(t <= level * n - 1 + 5 * (level - 1)) by (nonlinear_arith)
        requires
            t == q * (n + 5) + o,
            0 <= q < level,
            0 <= o < n,
    ;
    assert(level * n == lut_side(level)) by (nonlinear_arith)
        requires
            n == level * level,
    ;
}

/// Standard-layout position of the colour that the squares identity table
/// shows at `(x, y)`.
pub open spec fn squares_to_standard(x: int, y: int, level: int) -> (int, int) {
    let r = sq_r(x, y, level);
    let g = green_swap(sq_g(x, y, level), level);
    let b = sq_b(x, y, level);
    (std_x(r, g, level), std_y(g, b, level))
}

/// Squares-layout position of the colour that the standard identity table
/// shows at `(x, y)`.
pub open spec fn standard_to_squares(x: int, y: int, level: int) -> (int, int) {
    let r = std_r(x, y, level);
    let g = green_swap(std_g(x, y, level), level);
    let b = std_b(x, y, level);
    (sq_x(r, b, level), sq_y(g, b, level))
}

/// Law (first half of: the squares identity table is a rearrangement of the
/// standard one): the colour shown at `(x, y)` in the squares table is shown
/// at `squares_to_standard(x, y)` in the standard table, and
/// `standard_to_squares` leads back to `(x, y)`.
pub proof fn lemma_squares_cell_in_standard(tones: ToneScale, x: int, y: int)
    requires
        tones.wf(),
        tones.spec_level() >= 1,
        0 <= x < lut_side(tones.spec_level()),
        0 <= y < lut_side(tones.spec_level()),
    ensures
        ({
            let l = tones.spec_level();
            let p = squares_to_standard(x, y, l);
            &&& 0 <= p.0 < lut_side(l)
            &&& 0 <= p.1 < lut_side(l)
            &&& std_identity(tones)[p.0][p.1] == sq_identity(tones)[x][y]
            &&& standard_to_squares(p.0, p.1, l) == (x, y)
        }),
{
    let l = tones.spec_level();
    lemma_sq_backward(x, y, l);
    let r = sq_r(x, y, l);
    let g = sq_g(x, y, l);
    let b = sq_b(x, y, l);
    lemma_green_swap_involution(g, l);
    let sg = green_swap(g, l);
    lemma_std_forward(r, sg, b, l);
    let p = squares_to_standard(x, y, l);
    assert(std_identity(tones)[p.0][p.1] == std_cell(tones, p.0, p.1));
    assert(sq_identity(tones)[x][y] == sq_cell(tones, x, y));
}

/// Law (second half of the rearrangement): the colour shown at `(x, y)` in
/// the standard table is shown at `standard_to_squares(x, y)` in the squares
/// table, and `squares_to_standard` leads back to `(x, y)`.  With the first
/// half, the two maps are inverse bijections between the positions of the
/// two tables that carry each cell to an equal cell.
pub proof fn lemma_standard_cell_in_squares(tones: ToneScale, x: int, y: int)
    requires
        tones.wf(),
        tones.spec_level() >= 1,
        0 <= x < lut_side(tones.spec_level()),
        0 <= y < lut_side(tones.spec_level()),
    ensures
        ({
            let l = tones.spec_level();
            let q = standard_to_squares(x, y, l);
            &&& 0 <= q.0 < lut_side(l)
            &&& 0 <= q.1 < lut_side(l)
            &&& sq_identity(tones)[q.0][q.1] == std_identity(tones)[x][y]
            &&& squares_to_standard(q.0, q.1, l) == (x, y)
        }),
{
    let l = tones.spec_level();
    lemma_std_backward(x, y, l);
    let r = std_r(x, y, l);
    let g = std_g(x, y, l);
    let b = std_b(x, y, l);
    lemma_green_swap_involution(g, l);
    let sg = green_swap(g, l);
    lemma_sq_forward(r, sg, b, l);
    let q = standard_to_squares(x, y, l);
    assert(sq_identity(tones)[q.0][q.1] == sq_cell(tones, q.0, q.1));
    assert(std_identity(tones)[x][y] == std_cell(tones, x, y));
}

/// Law: the two identity tables agree in their first and last cells.
pub proof fn lemma_identity_tables_share_corners(tones: ToneScale)
    requires
        tones.wf(),
        tones.spec_level() >= 1,
    ensures
        sq_identity(tones)[0][0] == std_identity(tones)[0][0],
        sq_identity(tones)[lut_side(tones.spec_level()) - 1][lut_side(tones.spec_level()) - 1]
            == std_identity(tones)[lut_side(tones.spec_level()) - 1][lut_side(tones.spec_level()) - 1],
{
    let l = tones.spec_level();
    let n = shades(l);
    let side = lut_side(l);
    tones.lemma_wf();
    lemma_level_bounds(l);
    assert(n >= 1 && side == n * l);
    assert(side - 1 == (l - 1) * n + (n - 1)) by (nonlinear_arith)
        requires
            side == n * l,
    ;
    assert(side - 1 == (n - 1) * l + (l - 1)) by (nonlinear_arith)
        requires
            side == n * l,
            n == l * l,
    ;
    assert(n - 1 == (l - 1) * l + (l - 1)) by (nonlinear_arith)
        requires
            n == l * l,
    ;
    lemma_fundamental_div_mod_converse(side - 1, n, l - 1, n - 1);
    lemma_fundamental_div_mod_converse(side - 1, l, n - 1, l - 1);
    lemma_fundamental_div_mod_converse(n - 1, l, l - 1, l - 1);
    lemma_fundamental_div_mod_converse(0, n, 0, 0);
    lemma_fundamental_div_mod_converse(0, l, 0, 0);
    assert(sq_identity(tones)[0][0] == sq_cell(tones, 0, 0));
    assert(std_identity(tones)[0][0] == std_cell(tones, 0, 0));
    assert(sq_identity(tones)[side - 1][side - 1] == sq_cell(tones, side - 1, side - 1));
    assert(std_identity(tones)[side - 1][side - 1] == std_cell(tones, side - 1, side - 1));
}

/// Law: with tables that survive a round trip, distinct cells of the
/// standard identity table hold distinct colours, so each of its `n^3`
/// colours appears once.
pub proof fn lemma_std_identity_colours_distinct(tones: ToneScale, x1: int, y1: int, x2: int, y2: int)
    requires
        tones.wf(),
        tones.round_trips(),
        tones.spec_level() >= 1,
        0 <= x1 < lut_side(tones.spec_level()),
        0 <= y1 < lut_side(tones.spec_level()),
        0 <= x2 < lut_side(tones.spec_level()),
        0 <= y2 < lut_side(tones.spec_level()),
        x1 != x2 || y1 != y2,
    ensures
        std_identity(tones)[x1][y1] != std_identity(tones)[x2][y2],
{
    let l = tones.spec_level();
    lemma_std_backward(x1, y1, l);
    lemma_std_backward(x2, y2, l);
    let g1 = std_g(x1, y1, l);
    let g2 = std_g(x2, y2, l);
    lemma_green_swap_involution(g1, l);
    lemma_green_swap_involution(g2, l);
    assert(std_identity(tones)[x1][y1] == std_cell(tones, x1, y1));
    assert(std_identity(tones)[x2][y2] == std_cell(tones, x2, y2));
    if std_identity(tones)[x1][y1] == std_identity(tones)[x2][y2] {
        let r1 = std_r(x1, y1, l);
        let r2 = std_r(x2, y2, l);
        let b1 = std_b(x1, y1, l);
        let b2 = std_b(x2, y2, l);
        let s1 = green_swap(g1, l);
        let s2 = green_swap(g2, l);
        assert(tones.index_of(tones.byte_of(r1) as int) == r1);
        assert(tones.index_of(tones.byte_of(r2) as int) == r2);
        assert(tones.index_of(tones.byte_of(s1) as int) == s1);
        assert(tones.index_of(tones.byte_of(s2) as int) == s2);
        assert(tones.index_of(tones.byte_of(b1) as int) == b1);
        assert(tones.index_of(tones.byte_of(b2) as int) == b2);
        assert(r1 == r2 && s1 == s2 && b1 == b2);
        assert(g1 == g2);
    }
}

/// Law: with tables that survive a round trip, `xy_from_rgb` applied to cell
/// `(x, y)` of the standard identity table gives
/// `((y % level) * n + x % n, (y / level) * level + x / n)`: the two green
/// digits are swapped, so the result is `(x, y)` only when
/// `y % level == x / n`.
pub proof fn lemma_xy_of_standard_identity(tones: ToneScale, x: int, y: int)
    requires
        tones.wf(),
        tones.round_trips(),
        tones.spec_level() >= 1,
        0 <= x < lut_side(tones.spec_level()),
        0 <= y < lut_side(tones.spec_level()),
    ensures
        ({
            let l = tones.spec_level();
            let n = shades(l);
            std_xy(tones, std_identity(tones)[x][y]) == ((y % l) * n + x % n, (y / l) * l + x / n)
        }),
{
    let l = tones.spec_level();
    let n = shades(l);
    lemma_std_backward(x, y, l);
    lemma_green_swap(x, y, l);
    let r = std_r(x, y, l);
    let b = std_b(x, y, l);
    let sg = green_swap(std_g(x, y, l), l);
    assert(n >= 1) by (nonlinear_arith)
        requires
            n == l * l,
            l >= 1,
    ;
    lemma_fundamental_div_mod(x, n);
    assert(0 <= x / n < l) by (nonlinear_arith)
        requires
            x == n * (x / n) + x % n,
            0 <= x % n < n,
            0 <= x < l * l * l,
            n == l * l,
    ;
    lemma_fundamental_div_mod_converse(sg, l, y % l, x / n);
    assert(std_identity(tones)[x][y] == std_cell(tones, x, y));
    assert(tones.index_of(tones.byte_of(r) as int) == r);
    assert(tones.index_of(tones.byte_of(sg) as int) == sg);
    assert(tones.index_of(tones.byte_of(b) as int) == b);
}

/// Law: with tables that survive a round trip, `xy_from_rgb_squares`
/// applied to cell `(x, y)` of the squares identity table gives `(x, y)`.
pub proof fn lemma_xy_of_squares_identity(tones: ToneScale, x: int, y: int)
    requires
        tones.wf(),
        tones.round_trips(),
        tones.spec_level() >= 1,
        0 <= x < lut_side(tones.spec_level()),
        0 <= y < lut_side(tones.spec_level()),
    ensures
        sq_xy(tones, sq_identity(tones)[x][y]) == (x, y),
{
    assert(sq_identity(tones)[x][y] == sq_cell(tones, x, y));
    lemma_sq_position_round_trip(tones, x, y);
}

/// A channel value `c` snapped from `v` through the tables differs from it by
/// at most `1/2 + 255 / (2 (n - 1))`, where `m = n - 1`.
pub open spec fn snap_close(c: u8, v: u8, m: int) -> bool {
    -(m + 255) <= 2 * m * (c - v) <= m + 255
}

/// Snapping one channel: a byte, through the shade it names, back to a byte.
proof fn lemma_snap_channel(tones: ToneScale, v: int)
    requires
        tones.wf(),
        tones.rounds_to_nearest(),
        0 <= v < 256,
    ensures
        snap_close(
            tones.byte_of(tones.index_of(v)),
            v as u8,
            shades(tones.spec_level()) - 1,
        ),
{
    let l = tones.spec_level();
    let m = shades(l) - 1;
    tones.lemma_wf();
    let d = tones.index_of(v);
    assert(tones.index_near(v));
    assert(tones.byte_near(d));
    let c = tones.byte_of(d) as int;
    assert(2 * m * (c - v) == (2 * m * c - 510 * d) + (510 * d - 2 * v * m)) by (nonlinear_arith);
}

/// Law: with tables that round to nearest, the grid colour that
/// `rgb_from_xy` gives for the position that `xy_from_rgb` finds for a colour
/// differs from it by at most `1/2 + 255 / (2 (n - 1))` in each channel.
pub proof fn lemma_std_snap_is_close(tones: ToneScale, px: Pixel)
    requires
        tones.wf(),
        tones.rounds_to_nearest(),
    ensures
        ({
            let l = tones.spec_level();
            let m = shades(l) - 1;
            let p = std_xy(tones, px);
            let c = std_rgb(tones, p.0, p.1);
            &&& 0 <= p.0 < lut_side(l)
            &&& 0 <= p.1 < lut_side(l)
            &&& snap_close(c.r, px.r, m)
            &&& snap_close(c.g, px.g, m)
            &&& snap_close(c.b, px.b, m)
        }),
{
    let l = tones.spec_level();
    tones.lemma_wf();
    lemma_std_forward(
        tones.index_of(px.r as int),
        tones.index_of(px.g as int),
        tones.index_of(px.b as int),
        l,
    );
    lemma_snap_channel(tones, px.r as int);
    lemma_snap_channel(tones, px.g as int);
    lemma_snap_channel(tones, px.b as int);
}

/// Law: with tables that round to nearest, the same closeness holds in the
/// squares layout.
pub proof fn lemma_sq_snap_is_close(tones: ToneScale, px: Pixel)
    requires
        tones.wf(),
        tones.rounds_to_nearest(),
    ensures
        ({
            let l = tones.spec_level();
            let m = shades(l) - 1;
            let p = sq_xy(tones, px);
            let c = sq_cell(tones, p.0, p.1);
            &&& 0 <= p.0 < lut_side(l)
            &&& 0 <= p.1 < lut_side(l)
            &&& snap_close(c.r, px.r, m)
            &&& snap_close(c.g, px.g, m)
            &&& snap_close(c.b, px.b, m)
        }),
{
    let l = tones.spec_level();
    tones.lemma_wf();
    lemma_sq_forward(
        tones.index_of(px.r as int),
        tones.index_of(px.g as int),
        tones.index_of(px.b as int),
        l,
    );
    lemma_snap_channel(tones, px.r as int);
    lemma_snap_channel(tones, px.g as int);
    lemma_snap_channel(tones, px.b as int);
}

/// Law: with tables that survive a round trip, grid colours are fixed by
/// snapping: the grid colour of the position found for `rgb_from_xy(x, y)`
/// (or `rgb_from_xy_squares(x, y)`) is that colour itself.
pub proof fn lemma_grid_colours_fixed(tones: ToneScale, x: int, y: int)
    requires
        tones.wf(),
        tones.round_trips(),
        tones.spec_level() >= 1,
        0 <= x < lut_side(tones.spec_level()),
        0 <= y < lut_side(tones.spec_level()),
    ensures
        ({
            let p = std_xy(tones, std_rgb(tones, x, y));
            std_rgb(tones, p.0, p.1) == std_rgb(tones, x, y)
        }),
        ({
            let q = sq_xy(tones, sq_cell(tones, x, y));
            sq_cell(tones, q.0, q.1) == sq_cell(tones, x, y)
        }),
{
    lemma_std_position_round_trip(tones, x, y);
    lemma_sq_position_round_trip(tones, x, y);
}

/// Law: for tables that round to nearest, at levels 1 to 16, inverting the
/// identity table (standard layout) gives it back, and every position is
/// found again from the colour `rgb_from_xy` gives for it, in both layouts.
pub proof fn lemma_rounded_tables_invert_identity(tones: ToneScale, x: int, y: int)
    requires
        tones.wf(),
        tones.rounds_to_nearest(),
        tones.spec_level() <= 16,
        0 <= x < lut_side(tones.spec_level()),
        0 <= y < lut_side(tones.spec_level()),
    ensures
        reversed_table(std_identity(tones), tones) == std_identity(tones),
        std_xy(tones, std_rgb(tones, x, y)) == (x, y),
        sq_xy(tones, sq_cell(tones, x, y)) == (x, y),
        sq_xy(tones, sq_identity(tones)[x][y]) == (x, y),
{
    tones.lemma_nearest_round_trips();
    lemma_reverse_of_identity(tones);
    lemma_std_position_round_trip(tones, x, y);
    lemma_sq_position_round_trip(tones, x, y);
    lemma_xy_of_squares_identity(tones, x, y);
}

/// Law: for a photographed table at 1:1 scale (table pixels one image pixel
/// wide, gaps five pixels wide), the `i`-th gap centre is `i * (n + 5) - 3`,
/// the middle of the `i`-th five-pixel gap.
pub proof fn lemma_unit_scale_gap_center(i: int, level: int)
    requires
        i >= 1,
    ensures
        gap_center(i, level, 1, 5) == i * (shades(level) + 5) - 3,
        gap_center(i, level, 1, 5) == (i - 1) * (shades(level) + 5) + shades(level) + 2,
{
    let n = shades(level);
    assert(i * n * 1 + (i - 1) * 5 + 5int / 2 == i * (n + 5) - 3) by (nonlinear_arith);
    assert(i * (n + 5) - 3 == (i - 1) * (n + 5) + n + 2) by (nonlinear_arith);
}

/// Law: at 1:1 scale `draw_grid` keeps every pixel that shows a table entry:
/// a pixel with `x % (n + 5) < n` and `y % (n + 5) < n` lies on no grid line.
pub proof fn lemma_unit_scale_grid_keeps_tiles(level: int, x: int, y: int)
    requires
        level >= 1,
        x >= 0,
        y >= 0,
        x % (shades(level) + 5) < shades(level),
        y % (shades(level) + 5) < shades(level),
    ensures
        !on_grid_line(x, y, level, level, 1, 5),
{
    let n = shades(level);
    assert(n >= 1) by (nonlinear_arith)
        requires
            n == level * level,
            level >= 1,
    ;
    if on_grid_line(x, y, level, level, 1, 5) {
        let i = choose|i: int|
            1 <= i < level && (x == #[trigger] gap_center(i, level, 1, 5) || y == gap_center(i, level, 1, 5));
        lemma_unit_scale_gap_center(i, level);
        let g = gap_center(i, level, 1, 5);
        lemma_fundamental_div_mod_converse(g, n + 5, i - 1, n + 2);
    }
}

} // verus!
