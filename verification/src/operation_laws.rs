//! What the rendering, the grid overlay and the two inversions do, stated
//! in terms of their inputs: which tile colour a gap pixel takes, which
//! rows and columns the grid blackens (never a sampled pixel), where the
//! samples of a photographed table lie, which colour each visited cell
//! writes, and which measured cells the squares inversion keeps.
use vstd::prelude::*;
use vstd::arithmetic::div_mod::{lemma_div_is_ordered, lemma_fundamental_div_mod, lemma_fundamental_div_mod_converse};
use crate::grid_overlay::{gap_center, on_grid_line};
use crate::hald_frame::{frame_coord, frame_side, hald_frame_pixel, in_lut, in_lut_square, lut_coord, lut_max, on_tile_axis};
use crate::hald_generator::{
    is_square, lemma_level_bounds, reverse_write, reversed_table, sq_cell, sq_xy, std_rgb, std_xy,
};
use crate::laws::{last_write_to, lemma_frame_coord, lemma_reverse_cell};
use crate::layout::{lut_side, shades};
use crate::pixel::Pixel;
use crate::reconstruct::{SquaresInsert, squares_accepts, squares_insert, squares_plan, window_start};
use crate::tones::ToneScale;

verus! {

/// Law: every column and every row through a gap centre `gap_center(i)`,
/// `1 <= i < level`, lies on the grid, along its whole length.
pub proof fn lemma_grid_covers_gap_lines(level: int, pixel_size: int, scaled_space: int, i: int, t: int)
    requires
        1 <= i < level,
    ensures
        on_grid_line(gap_center(i, level, pixel_size, scaled_space), t, level, level, pixel_size, scaled_space),
        on_grid_line(t, gap_center(i, level, pixel_size, scaled_space), level, level, pixel_size, scaled_space),
{
}

/// Law: a pixel whose column and row both differ from every gap centre lies
/// on no grid line, so the grid keeps it.
pub proof fn lemma_grid_misses_other_pixels(level: int, pixel_size: int, scaled_space: int, x: int, y: int)
    requires
        forall|i: int|
            1 <= i < level ==> x != #[trigger] gap_center(i, level, pixel_size, scaled_space) && y != gap_center(
                i,
                level,
                pixel_size,
                scaled_space,
            ),
    ensures
        !on_grid_line(x, y, level, level, pixel_size, scaled_space),
{
}

/// Law: the `k`-th write of the inversion (cells visited row by row, `x`
/// outer) goes to the position that `xy_from_rgb` finds for the measured
/// colour of the visited cell, and stores the colour that `rgb_from_xy`
/// gives for the visited cell itself.
pub proof fn lemma_reverse_write_is_visited_colour(src: Seq<Seq<Pixel>>, tones: ToneScale, k: int)
    requires
        lut_side(tones.spec_level()) > 0,
        0 <= k,
    ensures
        ({
            let side = lut_side(tones.spec_level());
            let w = reverse_write(src, tones, k);
            let to = std_xy(tones, src[k / side][k % side]);
            &&& w.0 == to.0
            &&& w.1 == to.1
            &&& w.2 == std_rgb(tones, k / side, k % side)
        }),
{
}

/// Law: each cell of an inverted table holds the colour that `rgb_from_xy`
/// gives for the last visited cell (row by row) whose measured colour names
/// it; a cell that no measured colour names keeps its identity colour.
pub proof fn lemma_reverse_cell_colour(src: Seq<Seq<Pixel>>, tones: ToneScale, x: int, y: int)
    requires
        tones.wf(),
        tones.spec_level() >= 1,
        is_square(src, lut_side(tones.spec_level())),
        0 <= x < lut_side(tones.spec_level()),
        0 <= y < lut_side(tones.spec_level()),
    ensures
        ({
            let side = lut_side(tones.spec_level());
            match last_write_to(src, tones, x, y, (side * side) as nat) {
                Some(j) => {
                    &&& 0 <= j < side * side
                    &&& std_xy(tones, src[j / side][j % side]) == (x, y)
                    &&& reversed_table(src, tones)[x][y] == std_rgb(tones, j / side, j % side)
                },
                None => reversed_table(src, tones)[x][y] == crate::hald_generator::std_identity(tones)[x][y],
            }
        }),
{
    let side = lut_side(tones.spec_level());
    tones.lemma_wf();
    lemma_level_bounds(tones.spec_level());
    assert(side * side >= 0) by (nonlinear_arith);
    lemma_reverse_cell(src, tones, x, y);
    lemma_last_write_facts(src, tones, x, y, (side * side) as nat);
    if let Some(j) = last_write_to(src, tones, x, y, (side * side) as nat) {
        lemma_reverse_write_is_visited_colour(src, tones, j);
    }
}

/// The last write to `(x, y)` among the first `k` is one of them and
/// targets `(x, y)`.
proof fn lemma_last_write_facts(src: Seq<Seq<Pixel>>, tones: ToneScale, x: int, y: int, k: nat)
    requires
        lut_side(tones.spec_level()) > 0,
    ensures
        last_write_to(src, tones, x, y, k) matches Some(j) ==> {
            &&& 0 <= j < k
            &&& reverse_write(src, tones, j).0 == x
            &&& reverse_write(src, tones, j).1 == y
        },
    decreases k,
{
    if k > 0 {
        lemma_last_write_facts(src, tones, x, y, (k - 1) as nat);
    }
}

/// Law: the position that the measured colour of the last cell names holds,
/// after the inversion, the colour that `rgb_from_xy` gives for that last
/// cell: the last write wins.
pub proof fn lemma_reverse_last_cell_wins(src: Seq<Seq<Pixel>>, tones: ToneScale)
    requires
        tones.wf(),
        tones.spec_level() >= 1,
        is_square(src, lut_side(tones.spec_level())),
    ensures
        ({
            let side = lut_side(tones.spec_level());
            let to = std_xy(tones, src[side - 1][side - 1]);
            reversed_table(src, tones)[to.0][to.1] == std_rgb(tones, side - 1, side - 1)
        }),
{
    let l = tones.spec_level();
    let side = lut_side(l);
    tones.lemma_wf();
    lemma_level_bounds(l);
    let last = side * side - 1;
    assert(last == (side - 1) * side + (side - 1)) by (nonlinear_arith)
        requires
            last == side * side - 1,
    ;
    assert(side * side >= 1) by (nonlinear_arith)
        requires
            side >= 1,
    ;
    lemma_fundamental_div_mod_converse(last, side, side - 1, side - 1);
    assert(src[side - 1].len() == side);
    let p = src[side - 1][side - 1];
    crate::layout::lemma_std_forward(
        tones.index_of(p.r as int),
        tones.index_of(p.g as int),
        tones.index_of(p.b as int),
        l,
    );
    let to = std_xy(tones, p);
    assert(last_write_to(src, tones, to.0, to.1, (side * side) as nat) == Some(last));
    lemma_reverse_cell_colour(src, tones, to.0, to.1);
}

/// Law: a gap pixel directly to the right of the last column of a tile
/// (inside the table square, on a tile row) shows the colour of the table
/// cell to its left.
pub proof fn lemma_gap_right_of_tile(cells: Seq<Seq<Pixel>>, level: int, t: int, j: int)
    requires
        level >= 1,
        0 <= t < level - 1,
        0 <= j < lut_side(level),
    ensures
        ({
            let n = shades(level);
            let i = t * n + n - 1;
            hald_frame_pixel(cells, level, frame_coord(i, level) + 1, frame_coord(j, level)) == cells[i][j]
        }),
{
    let n = shades(level);
    let i = t * n + n - 1;
    assert(n >= 1) by (nonlinear_arith)
        requires
            n == level * level,
            level >= 1,
    ;
    assert(0 <= i < lut_side(level)) by (nonlinear_arith)
        requires
            i == t * n + n - 1,
            0 <= t < level - 1,
            n >= 1,
            n == level * level,
    ;
    lemma_fundamental_div_mod_converse(i, n, t, n - 1);
    lemma_frame_coord(i, level);
    lemma_frame_coord(j, level);
    let x = frame_coord(i, level) + 1;
    let y = frame_coord(j, level);
    assert(x - 10 == t * (n + 5) + n) by (nonlinear_arith)
        requires
            x == 10 + i + t * 5 + 1,
            i == t * n + n - 1,
    ;
    lemma_fundamental_div_mod_converse(x - 10, n + 5, t, n);
    assert(x <= lut_max(level)) by (nonlinear_arith)
        requires
            x - 10 == t * (n + 5) + n,
            t <= level - 2,
            lut_max(level) == 10 + level * level * level - 1 + 5 * (level - 1),
            n == level * level,
    ;
    assert(!in_lut(x, y, level));
    assert(in_lut_square(x, y, level));
    assert(in_lut(x - 1, y, level));
    assert(crate::hald_frame::first_neighbour(x, y, level, 0) == Some(0nat));
}

/// Law: a gap pixel directly to the left of the first column of a tile
/// (inside the table square, on a tile row) shows the colour of the table
/// cell to its right.
pub proof fn lemma_gap_left_of_tile(cells: Seq<Seq<Pixel>>, level: int, t: int, j: int)
    requires
        level >= 1,
        1 <= t < level,
        0 <= j < lut_side(level),
    ensures
        ({
            let n = shades(level);
            let i = t * n;
            hald_frame_pixel(cells, level, frame_coord(i, level) - 1, frame_coord(j, level)) == cells[i][j]
        }),
{
    let n = shades(level);
    let i = t * n;
    assert(n >= 1) by (nonlinear_arith)
        requires
            n == level * level,
            level >= 1,
    ;
    assert(0 <= i < lut_side(level)) by (nonlinear_arith)
        requires
            i == t * n,
            1 <= t < level,
            n >= 1,
            n == level * level,
    ;
    lemma_fundamental_div_mod_converse(i, n, t, 0);
    lemma_frame_coord(i, level);
    lemma_frame_coord(j, level);
    let x = frame_coord(i, level) - 1;
    let y = frame_coord(j, level);
    assert(x - 10 == (t - 1) * (n + 5) + n + 4) by (nonlinear_arith)
        requires
            x == 10 + i + t * 5 - 1,
            i == t * n,
    ;
    lemma_fundamental_div_mod_converse(x - 10, n + 5, t - 1, n + 4);
    lemma_fundamental_div_mod_converse(x - 11, n + 5, t - 1, n + 3);
    assert(x <= lut_max(level)) by (nonlinear_arith)
        requires
            x == 10 + i + t * 5 - 1,
            i == t * n,
            t <= level - 1,
            lut_max(level) == 10 + level * level * level - 1 + 5 * (level - 1),
            n == level * level,
    ;
    assert(x - 1 >= 10) by (nonlinear_arith)
        requires
            x - 10 == (t - 1) * (n + 5) + n + 4,
            t >= 1,
            n >= 1,
    ;
    assert(!in_lut(x, y, level));
    assert(in_lut_square(x, y, level));
    assert(!on_tile_axis(x, level));
    assert(!on_tile_axis(x - 1, level));
    assert(in_lut(x + 1, y, level));
    reveal_with_fuel(crate::hald_frame::first_neighbour, 5);
    assert(crate::hald_frame::first_neighbour(x, y, level, 0) == Some(3nat));
}

/// Every channel of `a` differs from the same channel of `b` by at most `tol`.
pub open spec fn channels_within(a: Pixel, b: Pixel, tol: int) -> bool {
    &&& -tol <= a.r as int - b.r as int <= tol
    &&& -tol <= a.g as int - b.g as int <= tol
    &&& -tol <= a.b as int - b.b as int <= tol
}

/// The three closeness conditions of the squares inversion, channel by
/// channel: the measured colour of `(x, y)` against the identity colour of
/// `(x, y)`, against the identity colour of the position it names, and those
/// two identity colours against each other.
pub open spec fn kept_by_tolerance(src: Seq<Seq<Pixel>>, tones: ToneScale, x: int, y: int) -> bool {
    let px = src[x][y];
    let to = sq_xy(tones, px);
    &&& channels_within(px, sq_cell(tones, x, y), 68)
    &&& channels_within(px, sq_cell(tones, to.0, to.1), 68)
    &&& channels_within(sq_cell(tones, x, y), sq_cell(tones, to.0, to.1), 68)
}

/// What the first `k` visits of the squares inversion have produced: every
/// entry is the insertion of an earlier visited cell that is kept, and every
/// kept earlier cell has an entry.
pub open spec fn plan_prefix_ok(src: Seq<Seq<Pixel>>, tones: ToneScale, k: int, plan: Seq<SquaresInsert>) -> bool {
    let side = lut_side(tones.spec_level());
    &&& forall|j: int|
        0 <= j < plan.len() ==> {
            let e = #[trigger] plan[j];
            &&& 0 <= e.x < side
            &&& 0 <= e.y < side
            &&& e.x * side + e.y < k
            &&& e == squares_insert(src, tones, e.x as int, e.y as int)
            &&& kept_by_tolerance(src, tones, e.x as int, e.y as int)
        }
    &&& forall|x: int, y: int|
        0 <= x < side && 0 <= y < side && x * side + y < k && #[trigger] kept_by_tolerance(src, tones, x, y)
            ==> exists|j: int| 0 <= j < plan.len() && (#[trigger] plan[j]).x == x && plan[j].y == y
    &&& forall|a: int, b: int|
        0 <= a < b < plan.len() ==> (#[trigger] plan[a]).x * side + plan[a].y < (#[trigger] plan[b]).x * side
            + plan[b].y
}

/// The closeness test of the inversion is the channel-by-channel tolerance.
proof fn lemma_accepts_is_tolerance(src: Seq<Seq<Pixel>>, tones: ToneScale, x: int, y: int)
    ensures
        squares_accepts(src, tones, x, y) == kept_by_tolerance(src, tones, x, y),
{
}

proof fn lemma_plan_prefix(src: Seq<Seq<Pixel>>, tones: ToneScale, k: nat)
    requires
        tones.wf(),
        lut_side(tones.spec_level()) >= 1,
        k <= lut_side(tones.spec_level()) * lut_side(tones.spec_level()),
    ensures
        plan_prefix_ok(src, tones, k as int, squares_plan(src, tones, k)),
    decreases k,
{
    let side = lut_side(tones.spec_level());
    tones.lemma_wf();
    if k > 0 {
        lemma_plan_prefix(src, tones, (k - 1) as nat);
        let prev = squares_plan(src, tones, (k - 1) as nat);
        let cur = squares_plan(src, tones, k);
        let idx = k - 1;
        lemma_fundamental_div_mod(idx, side);
        let x0 = idx / side;
        let y0 = idx % side;
        assert(0 <= x0 < side) by (nonlinear_arith)
            requires
                idx == side * x0 + y0,
                0 <= y0 < side,
                0 <= idx < side * side,
        ;
        assert(x0 * side + y0 == idx) by (nonlinear_arith)
            requires
                idx == side * x0 + y0,
        ;
        lemma_accepts_is_tolerance(src, tones, x0, y0);
        assert forall|x: int, y: int|
            0 <= x < side && 0 <= y < side && x * side + y < k && #[trigger] kept_by_tolerance(src, tones, x, y)
                implies exists|j: int| 0 <= j < cur.len() && (#[trigger] cur[j]).x == x && cur[j].y == y by {
            if x * side + y < k - 1 {
                let j = choose|j: int| 0 <= j < prev.len() && (#[trigger] prev[j]).x == x && prev[j].y == y;
                assert(cur[j] == prev[j]);
            } else {
                lemma_fundamental_div_mod_converse(idx, side, x, y);
                assert(cur[prev.len() as int] == squares_insert(src, tones, x0, y0));
            }
        }
        if squares_accepts(src, tones, x0, y0) {
            assert forall|a: int, b: int| 0 <= a < b < cur.len() implies (#[trigger] cur[a]).x * side + cur[a].y
                < (#[trigger] cur[b]).x * side + cur[b].y by {
                assert(cur[a] == prev[a]);
                if b < prev.len() {
                    assert(cur[b] == prev[b]);
                } else {
                    assert(cur[b] == squares_insert(src, tones, x0, y0));
                }
            }
            assert forall|j: int| 0 <= j < cur.len() implies {
                let e = #[trigger] cur[j];
                &&& 0 <= e.x < side
                &&& 0 <= e.y < side
                &&& e.x * side + e.y < k
                &&& e == squares_insert(src, tones, e.x as int, e.y as int)
                &&& kept_by_tolerance(src, tones, e.x as int, e.y as int)
            } by {
                if j < prev.len() {
                    assert(cur[j] == prev[j]);
                }
            }
        }
    }
}

/// Law: the squares inversion keeps cell `(x, y)` of the measured table
/// exactly when every channel passes every one of its three comparisons
/// (each within 68 of 255, the threshold 0.27 of the channel range); each
/// entry of the plan belongs to a kept cell, sends it to the position its
/// measured colour names, and carries the identity colour of the cell; the
/// entries come in row-major order of their cells, each cell at most once.
pub proof fn lemma_plan_keeps_cells_within_tolerance(src: Seq<Seq<Pixel>>, tones: ToneScale, x: int, y: int)
    requires
        tones.wf(),
        tones.spec_level() >= 1,
        0 <= x < lut_side(tones.spec_level()),
        0 <= y < lut_side(tones.spec_level()),
    ensures
        ({
            let side = lut_side(tones.spec_level());
            let plan = squares_plan(src, tones, (side * side) as nat);
            &&& (exists|j: int| 0 <= j < plan.len() && (#[trigger] plan[j]).x == x && plan[j].y == y)
                <==> kept_by_tolerance(src, tones, x, y)
            &&& forall|j: int|
                0 <= j < plan.len() ==> {
                    let e = #[trigger] plan[j];
                    let to = sq_xy(tones, src[e.x as int][e.y as int]);
                    &&& 0 <= e.x < side
                    &&& 0 <= e.y < side
                    &&& kept_by_tolerance(src, tones, e.x as int, e.y as int)
                    &&& e.x2 == to.0 as u32
                    &&& e.y2 == to.1 as u32
                    &&& e.color == sq_cell(tones, e.x as int, e.y as int)
                }
            &&& forall|a: int, b: int|
                0 <= a < b < plan.len() ==> (#[trigger] plan[a]).x * side + plan[a].y < (#[trigger] plan[b]).x
                    * side + plan[b].y
        }),
{
    let l = tones.spec_level();
    let side = lut_side(l);
    tones.lemma_wf();
    lemma_level_bounds(l);
    assert(side * side >= x * side + y + 1) by (nonlinear_arith)
        requires
            0 <= x < side,
            0 <= y < side,
    ;
    lemma_plan_prefix(src, tones, (side * side) as nat);
    let plan = squares_plan(src, tones, (side * side) as nat);
    if exists|j: int| 0 <= j < plan.len() && (#[trigger] plan[j]).x == x && plan[j].y == y {
        let j = choose|j: int| 0 <= j < plan.len() && (#[trigger] plan[j]).x == x && plan[j].y == y;
        assert(plan[j].x as int == x);
        assert(kept_by_tolerance(src, tones, plan[j].x as int, plan[j].y as int));
    }
}

/// Law: outside the square spanned by the table, the rendered image is
/// black exactly on the eight arms of the corner marks (the continuations of
/// the table's first and last rows and columns out to the image edge) and
/// white everywhere else.
pub proof fn lemma_frame_outside_square(cells: Seq<Seq<Pixel>>, level: int, x: int, y: int)
    requires
        level >= 1,
        0 <= x < frame_side(level),
        0 <= y < frame_side(level),
        !(10 <= x <= lut_max(level) && 10 <= y <= lut_max(level)),
    ensures
        ({
            let hi = lut_max(level);
            let on_mark = ((x == 10 || x == hi) && (y < 10 || y > hi)) || ((y == 10 || y == hi) && (x < 10
                || x > hi));
            hald_frame_pixel(cells, level, x, y) == if on_mark {
                Pixel { r: 0, g: 0, b: 0 }
            } else {
                Pixel { r: 255, g: 255, b: 255 }
            }
        }),
{
    assert(!in_lut(x, y, level));
    assert(!in_lut_square(x, y, level));
}

/// Law: the middle column of a gap between two tiles, inside the table
/// square, is white: no tile pixel lies within two pixels of it.
pub proof fn lemma_gap_middle_is_white(cells: Seq<Seq<Pixel>>, level: int, t: int, j: int)
    requires
        level >= 1,
        0 <= t < level - 1,
        0 <= j < lut_side(level),
    ensures
        ({
            let n = shades(level);
            hald_frame_pixel(cells, level, frame_coord(t * n + n - 1, level) + 3, frame_coord(j, level))
                == Pixel { r: 255, g: 255, b: 255 }
        }),
{
    let n = shades(level);
    let i = t * n + n - 1;
    assert(n >= 1) by (nonlinear_arith)
        requires
            n == level * level,
            level >= 1,
    ;
    assert(0 <= i < lut_side(level)) by (nonlinear_arith)
        requires
            i == t * n + n - 1,
            0 <= t < level - 1,
            n >= 1,
            n == level * level,
    ;
    lemma_fundamental_div_mod_converse(i, n, t, n - 1);
    lemma_frame_coord(i, level);
    lemma_frame_coord(j, level);
    let x = frame_coord(i, level) + 3;
    let y = frame_coord(j, level);
    assert(x - 10 == t * (n + 5) + n + 2) by (nonlinear_arith)
        requires
            x == 10 + i + t * 5 + 3,
            i == t * n + n - 1,
    ;
    assert(x + 2 <= lut_max(level)) by (nonlinear_arith)
        requires
            x - 10 == t * (n + 5) + n + 2,
            t <= level - 2,
            lut_max(level) == 10 + level * level * level - 1 + 5 * (level - 1),
            n == level * level,
    ;
    lemma_fundamental_div_mod_converse(x - 12, n + 5, t, n);
    lemma_fundamental_div_mod_converse(x - 11, n + 5, t, n + 1);
    lemma_fundamental_div_mod_converse(x - 10, n + 5, t, n + 2);
    lemma_fundamental_div_mod_converse(x - 9, n + 5, t, n + 3);
    lemma_fundamental_div_mod_converse(x - 8, n + 5, t, n + 4);
    assert(!on_tile_axis(x - 2, level));
    assert(!on_tile_axis(x - 1, level));
    assert(!on_tile_axis(x, level));
    assert(!on_tile_axis(x + 1, level));
    assert(!on_tile_axis(x + 2, level));
    assert(in_lut_square(x, y, level));
    reveal_with_fuel(crate::hald_frame::first_neighbour, 26);
    assert(crate::hald_frame::first_neighbour(x, y, level, 0) == None::<nat>);
}

/// The image coordinate just after the last table coordinate of tile `t`
/// (along one axis) lies in the following gap, inside the table square.
proof fn lemma_after_tile(level: int, t: int)
    requires
        level >= 1,
        0 <= t < level - 1,
    ensures
        ({
            let n = shades(level);
            let i = t * n + n - 1;
            let g = frame_coord(i, level) + 1;
            &&& 0 <= i < lut_side(level)
            &&& !on_tile_axis(g, level)
            &&& 10 <= g <= lut_max(level)
            &&& on_tile_axis(g - 1, level)
            &&& lut_coord(g - 1, level) == i
        }),
{
    let n = shades(level);
    let i = t * n + n - 1;
    assert(n >= 1) by (nonlinear_arith)
        requires
            n == level * level,
            level >= 1,
    ;
    assert(0 <= i < lut_side(level)) by (nonlinear_arith)
        requires
            i == t * n + n - 1,
            0 <= t < level - 1,
            n >= 1,
            n == level * level,
    ;
    lemma_fundamental_div_mod_converse(i, n, t, n - 1);
    lemma_frame_coord(i, level);
    let g = frame_coord(i, level) + 1;
    assert(g - 10 == t * (n + 5) + n) by (nonlinear_arith)
        requires
            g == 10 + i + t * 5 + 1,
            i == t * n + n - 1,
    ;
    lemma_fundamental_div_mod_converse(g - 10, n + 5, t, n);
    assert(g <= lut_max(level)) by (nonlinear_arith)
        requires
            g - 10 == t * (n + 5) + n,
            t <= level - 2,
            lut_max(level) == 10 + level * level * level - 1 + 5 * (level - 1),
            n == level * level,
    ;
}

/// The two image coordinates just before the first table coordinate of tile
/// `t` (along one axis) lie in the preceding gap, inside the table square.
proof fn lemma_before_tile(level: int, t: int)
    requires
        level >= 1,
        1 <= t < level,
    ensures
        ({
            let n = shades(level);
            let i = t * n;
            let h = frame_coord(i, level) - 1;
            &&& 0 <= i < lut_side(level)
            &&& !on_tile_axis(h, level)
            &&& !on_tile_axis(h - 1, level)
            &&& 10 <= h - 1
            &&& h <= lut_max(level)
            &&& on_tile_axis(h + 1, level)
            &&& lut_coord(h + 1, level) == i
        }),
{
    let n = shades(level);
    let i = t * n;
    assert(n >= 1) by (nonlinear_arith)
        requires
            n == level * level,
            level >= 1,
    ;
    assert(0 <= i < lut_side(level)) by (nonlinear_arith)
        requires
            i == t * n,
            1 <= t < level,
            n >= 1,
            n == level * level,
    ;
    lemma_fundamental_div_mod_converse(i, n, t, 0);
    lemma_frame_coord(i, level);
    let h = frame_coord(i, level) - 1;
    assert(h - 10 == (t - 1) * (n + 5) + n + 4) by (nonlinear_arith)
        requires
            h == 10 + i + t * 5 - 1,
            i == t * n,
    ;
    lemma_fundamental_div_mod_converse(h - 10, n + 5, t - 1, n + 4);
    lemma_fundamental_div_mod_converse(h - 11, n + 5, t - 1, n + 3);
    assert(h <= lut_max(level)) by (nonlinear_arith)
        requires
            h == 10 + i + t * 5 - 1,
            i == t * n,
            t <= level - 1,
            lut_max(level) == 10 + level * level * level - 1 + 5 * (level - 1),
            n == level * level,
    ;
    assert(h - 1 >= 10) by (nonlinear_arith)
        requires
            h - 10 == (t - 1) * (n + 5) + n + 4,
            t >= 1,
            n >= 1,
    ;
}

/// Law: a gap pixel directly below the last row of a tile (inside the table
/// square, on a tile column) shows the colour of the table cell above it.
pub proof fn lemma_gap_below_tile(cells: Seq<Seq<Pixel>>, level: int, i: int, t: int)
    requires
        level >= 1,
        0 <= i < lut_side(level),
        0 <= t < level - 1,
    ensures
        ({
            let n = shades(level);
            let j = t * n + n - 1;
            hald_frame_pixel(cells, level, frame_coord(i, level), frame_coord(j, level) + 1) == cells[i][j]
        }),
{
    lemma_after_tile(level, t);
    lemma_frame_coord(i, level);
    let n = shades(level);
    let x = frame_coord(i, level);
    let y = frame_coord(t * n + n - 1, level) + 1;
    assert(!in_lut(x, y, level));
    assert(in_lut_square(x, y, level));
    assert(!in_lut(x - 1, y, level));
    assert(in_lut(x, y - 1, level));
    reveal_with_fuel(crate::hald_frame::first_neighbour, 3);
    assert(crate::hald_frame::first_neighbour(x, y, level, 0) == Some(1nat));
}

/// Law: a gap pixel directly above the first row of a tile (inside the table
/// square, on a tile column) shows the colour of the table cell below it.
pub proof fn lemma_gap_above_tile(cells: Seq<Seq<Pixel>>, level: int, i: int, t: int)
    requires
        level >= 1,
        0 <= i < lut_side(level),
        1 <= t < level,
    ensures
        ({
            let j = t * shades(level);
            hald_frame_pixel(cells, level, frame_coord(i, level), frame_coord(j, level) - 1) == cells[i][j]
        }),
{
    lemma_before_tile(level, t);
    lemma_frame_coord(i, level);
    let x = frame_coord(i, level);
    let y = frame_coord(t * shades(level), level) - 1;
    assert(!in_lut(x, y, level));
    assert(in_lut_square(x, y, level));
    assert(!in_lut(x - 1, y, level));
    assert(!in_lut(x, y - 1, level));
    assert(!in_lut(x - 1, y - 1, level));
    assert(!in_lut(x + 1, y, level));
    assert(in_lut(x, y + 1, level));
    reveal_with_fuel(crate::hald_frame::first_neighbour, 6);
    assert(crate::hald_frame::first_neighbour(x, y, level, 0) == Some(4nat));
}

/// Law: a gap pixel diagonally below and to the right of the last cell of a
/// tile (where a column gap crosses a row gap) shows the colour of that cell.
pub proof fn lemma_gap_crossing_after_tile(cells: Seq<Seq<Pixel>>, level: int, t: int, s: int)
    requires
        level >= 1,
        0 <= t < level - 1,
        0 <= s < level - 1,
    ensures
        ({
            let n = shades(level);
            let i = t * n + n - 1;
            let j = s * n + n - 1;
            hald_frame_pixel(cells, level, frame_coord(i, level) + 1, frame_coord(j, level) + 1) == cells[i][j]
        }),
{
    lemma_after_tile(level, t);
    lemma_after_tile(level, s);
    let n = shades(level);
    let x = frame_coord(t * n + n - 1, level) + 1;
    let y = frame_coord(s * n + n - 1, level) + 1;
    assert(!in_lut(x, y, level));
    assert(in_lut_square(x, y, level));
    assert(!in_lut(x - 1, y, level));
    assert(!in_lut(x, y - 1, level));
    assert(in_lut(x - 1, y - 1, level));
    reveal_with_fuel(crate::hald_frame::first_neighbour, 4);
    assert(crate::hald_frame::first_neighbour(x, y, level, 0) == Some(2nat));
}

/// Law: with gaps at least one pixel wide, no grid line crosses a sampled
/// window: the column (or row) through any gap centre lies either before the
/// first or after the last pixel sampled for any table coordinate `l`, for
/// every sample size up to the width of a table pixel.
pub proof fn lemma_grid_avoids_samples(
    level: int,
    pixel_size: int,
    scaled_space: int,
    sample_size: int,
    i: int,
    l: int,
)
    requires
        level >= 1,
        0 <= sample_size <= pixel_size,
        scaled_space >= 1,
        1 <= i < level,
        0 <= l,
    ensures
        ({
            let g = gap_center(i, level, pixel_size, scaled_space);
            let w = window_start(l, level, pixel_size, scaled_space, sample_size);
            g < w || w + sample_size <= g
        }),
{
    let n = shades(level);
    let ps = pixel_size;
    let ss = scaled_space;
    let s = sample_size;
    assert(n >= 1) by (nonlinear_arith)
        requires
            n == level * level,
            level >= 1,
    ;
    lemma_fundamental_div_mod(l, n);
    let q = l / n;
    let r = l % n;
    let g = gap_center(i, level, ps, ss);
    let w = window_start(l, level, ps, ss, s);
    assert(g == i * n * ps + (i - 1) * ss + ss / 2);
    assert(w == l * ps + q * ss + (ps - s) / 2);
    assert(0 <= (ps - s) / 2 && (ps - s) / 2 + s <= ps);
    if q <= i - 1 {
        assert(l * ps + ps <= i * n * ps && q * ss <= (i - 1) * ss) by (nonlinear_arith)
            requires
                l == n * q + r,
                0 <= r < n,
                q <= i - 1,
                ps >= 0,
                ss >= 0,
        ;
        assert(w + s <= g);
    } else {
        assert(l >= i * n) by (nonlinear_arith)
            requires
                l == n * q + r,
                0 <= r,
                q >= i,
                n >= 1,
        ;
        assert(l * ps >= (i * n) * ps) by (nonlinear_arith)
            requires
                l >= i * n,
                ps >= 0,
        ;
        assert(q * ss >= i * ss) by (nonlinear_arith)
            requires
                q >= i,
                ss >= 0,
        ;
        assert((i * n) * ps == i * n * ps);
        assert((i - 1) * ss == i * ss - ss) by (nonlinear_arith);
    }
}

/// Law: the pixels sampled for a table coordinate lie inside the image span
/// of that table pixel (the window of a full-width sample), and the windows
/// of two table coordinates never overlap: the one of the smaller coordinate
/// ends before the other begins.
pub proof fn lemma_sample_windows_ordered(
    level: int,
    pixel_size: int,
    scaled_space: int,
    sample_size: int,
    l: int,
    m: int,
)
    requires
        level >= 1,
        0 <= sample_size <= pixel_size,
        scaled_space >= 0,
        0 <= l < m,
    ensures
        window_start(l, level, pixel_size, scaled_space, pixel_size) <= window_start(
            l,
            level,
            pixel_size,
            scaled_space,
            sample_size,
        ),
        window_start(l, level, pixel_size, scaled_space, sample_size) + sample_size <= window_start(
            l,
            level,
            pixel_size,
            scaled_space,
            pixel_size,
        ) + pixel_size,
        window_start(l, level, pixel_size, scaled_space, sample_size) + sample_size <= window_start(
            m,
            level,
            pixel_size,
            scaled_space,
            sample_size,
        ),
{
    let n = shades(level);
    let ps = pixel_size;
    let ss = scaled_space;
    let s = sample_size;
    assert(n >= 1) by (nonlinear_arith)
        requires
            n == level * level,
            level >= 1,
    ;
    lemma_div_is_ordered(l, m, n);
    assert(0 <= (ps - s) / 2 && (ps - s) / 2 + s <= ps);
    assert(m * ps >= l * ps + ps) by (nonlinear_arith)
        requires
            l < m,
            ps >= 0,
    ;
    assert((m / n) * ss >= (l / n) * ss) by (nonlinear_arith)
        requires
            m / n >= l / n,
            ss >= 0,
    ;
}

} // verus!
