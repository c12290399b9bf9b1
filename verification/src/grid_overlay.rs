//! Drawing the separators between the tiles of a photographed squares-layout
//! table, so that the tile boundaries can be checked by eye.
use vstd::prelude::*;
use crate::canvas::{RgbCanvas, canvas_at, canvas_height, canvas_size, canvas_wf, canvas_width, triple};
use crate::hald_generator::{HaldImageRgbMap, black};
use crate::layout::shades;
use crate::pixel::Pixel;

verus! {

/// Centre of the `i`-th gap (`1 <= i < level`) of a photographed table whose
/// table pixels are `pixel_size` image pixels wide and whose gaps are
/// `scaled_space` wide: after `i` tiles of `level^2` table pixels and `i - 1`
/// gaps, half a gap further.
pub open spec fn gap_center(i: int, level: int, pixel_size: int, scaled_space: int) -> int {
    i * shades(level) * pixel_size + (i - 1) * scaled_space + scaled_space / 2
}

/// Image pixel `(x, y)` lies on the vertical or horizontal line through one
/// of the first gaps `1 <= i < k`.
pub open spec fn on_grid_line(x: int, y: int, k: int, level: int, pixel_size: int, scaled_space: int) -> bool {
    exists|i: int|
        1 <= i < k && (x == #[trigger] gap_center(i, level, pixel_size, scaled_space) || y == gap_center(
            i,
            level,
            pixel_size,
            scaled_space,
        ))
}

impl HaldImageRgbMap {
    /// Draws, for every gap `1 <= i < level`, a black vertical line at column
    /// `gap_center(i)` and a black horizontal line at row `gap_center(i)`,
    /// across the whole image; a line that falls outside the image is not
    /// drawn.  All other pixels are kept.
    pub fn draw_grid(&self, img: &mut RgbCanvas, pixel_size: u32, scaled_space: u32)
        requires
            self.wf(),
            canvas_wf(*old(img)),
            forall|i: int|
                1 <= i < self.spec_level() ==> #[trigger] gap_center(
                    i,
                    self.spec_level(),
                    pixel_size as int,
                    scaled_space as int,
                ) <= u32::MAX,
        ensures
            canvas_size(*final(img)) == canvas_size(*old(img)),
            canvas_wf(*final(img)),
            forall|x: int, y: int|
                0 <= x < canvas_width(*old(img)) && 0 <= y < canvas_height(*old(img))
                    ==> #[trigger] canvas_at(*final(img), x, y) == if on_grid_line(
                    x,
                    y,
                    self.spec_level(),
                    self.spec_level(),
                    pixel_size as int,
                    scaled_space as int,
                ) {
                    triple(black())
                } else {
                    canvas_at(*old(img), x, y)
                },
    {
        let level = self.level();
        proof {
            self.lemma_wf();
            crate::hald_generator::lemma_level_bounds(level as int);
        }
        let ghost l = level as int;
        let ghost ps = pixel_size as int;
        let ghost ss = scaled_space as int;
        let ghost before = *img;
        let n = level * level;
        let (width, height) = img.dimensions();
        let mut i: u32 = 1;
        while i < level
            invariant
                1 <= i,
                i <= level || i == 1,
                level == l,
                ps == pixel_size,
                ss == scaled_space,
                n == shades(l),
                n <= 0xffff_ffff,
                l * l * l <= 0xffff_ffff,
                canvas_size(*img) == canvas_size(before),
                canvas_size(before) == (width, height),
                canvas_wf(*img),
                forall|j: int| 1 <= j < l ==> #[trigger] gap_center(j, l, ps, ss) <= u32::MAX,
                forall|x: int, y: int|
                    0 <= x < width && 0 <= y < height ==> #[trigger] canvas_at(*img, x, y) == if on_grid_line(
                        x,
                        y,
                        i as int,
                        l,
                        ps,
                        ss,
                    ) {
                        triple(black())
                    } else {
                        canvas_at(before, x, y)
                    },
            decreases level - i,
        {
            let ghost gc_spec = gap_center(i as int, l, ps, ss);
            assert(gc_spec <= u32::MAX);
            assert(i as int * n * ps <= gc_spec && (i - 1) * ss <= gc_spec) by (nonlinear_arith)
                requires
                    gc_spec == i * n * ps + (i - 1) * ss + ss / 2,
                    i >= 1,
                    n >= 0,
                    ps >= 0,
                    ss >= 0,
            ;
            assert(i as int * n <= 0xffff_ffff) by (nonlinear_arith)
                requires
                    i < l,
                    n == l * l,
                    l * l * l <= 0xffff_ffff,
                    i >= 1,
            ;
            let gap = i * n * pixel_size + (i - 1) * scaled_space + scaled_space / 2;
            let mut yy: u32 = 0;
            while yy < height
                invariant
                    yy <= height,
                    gap == gc_spec,
                    gc_spec == gap_center(i as int, l, ps, ss),
                    canvas_size(*img) == (width, height),
                    canvas_wf(*img),
                    forall|x: int, y: int|
                        0 <= x < width && 0 <= y < height ==> #[trigger] canvas_at(*img, x, y) == if on_grid_line(
                            x,
                            y,
                            i as int,
                            l,
                            ps,
                            ss,
                        ) || (x == gap && y < yy) {
                            triple(black())
                        } else {
                            canvas_at(before, x, y)
                        },
                decreases height - yy,
            {
                if gap < width {
                    img.put_pixel(gap, yy, Pixel::new(0, 0, 0));
                }
                yy = yy + 1;
            }
            let mut xx: u32 = 0;
            while xx < width
                invariant
                    xx <= width,
                    gap == gc_spec,
                    gc_spec == gap_center(i as int, l, ps, ss),
                    canvas_size(*img) == (width, height),
                    canvas_wf(*img),
                    forall|x: int, y: int|
                        0 <= x < width && 0 <= y < height ==> #[trigger] canvas_at(*img, x, y) == if on_grid_line(
                            x,
                            y,
                            i as int,
                            l,
                            ps,
                            ss,
                        ) || x == gap || (y == gap && x < xx) {
                            triple(black())
                        } else {
                            canvas_at(before, x, y)
                        },
                decreases width - xx,
            {
                if gap < height {
                    img.put_pixel(xx, gap, Pixel::new(0, 0, 0));
                }
                xx = xx + 1;
            }
            proof {
                assert forall|x: int, y: int| 0 <= x < width && 0 <= y < height implies on_grid_line(
                    x,
                    y,
                    i + 1,
                    l,
                    ps,
                    ss,
                ) == (on_grid_line(x, y, i as int, l, ps, ss) || x == gap || y == gap) by {
                    if x == gap || y == gap {
                        assert(gap_center(i as int, l, ps, ss) == gap);
                    }
                    if on_grid_line(x, y, i + 1, l, ps, ss) {
                        let j = choose|j: int|
                            1 <= j < i + 1 && (x == #[trigger] gap_center(j, l, ps, ss) || y == gap_center(
                                j,
                                l,
                                ps,
                                ss,
                            ));
                        if j < i {
                            assert(on_grid_line(x, y, i as int, l, ps, ss));
                        }
                    }
                    if on_grid_line(x, y, i as int, l, ps, ss) {
                        let j = choose|j: int|
                            1 <= j < i && (x == #[trigger] gap_center(j, l, ps, ss) || y == gap_center(
                                j,
                                l,
                                ps,
                                ss,
                            ));
                        assert(1 <= j < i + 1);
                    }
                }
            }
            i = i + 1;
        }
        proof {
            assert forall|x: int, y: int| 0 <= x < width && 0 <= y < height implies #[trigger] canvas_at(
                *img,
                x,
                y,
            ) == if on_grid_line(x, y, l, l, ps, ss) {
                triple(black())
            } else {
                canvas_at(before, x, y)
            } by {
                if level == 0 {
                    assert(!on_grid_line(x, y, i as int, l, ps, ss));
                    assert(!on_grid_line(x, y, l, l, ps, ss));
                } else {
                    assert(i == level);
                }
            }
        }
    }
}

} // verus!
