use hald_lut::hald_generator::HaldImageRgbMap;
use hald_lut::pixel::Pixel;
use hald_lut::reconstruct::{pixels_close, SquaresInsert};
use hald_lut::tones::ToneScale;

fn f32_to_byte(i: u32, n: u32) -> u8 {
    let scale = 255.0 / (n - 1) as f32;
    (i as f32 * scale).round() as u8
}

fn f32_to_index(v: u8, n: u32) -> u32 {
    let scale = (n - 1) as f32 / 255.0;
    (v as f32 * scale).round() as u32
}

fn tones(level: u32) -> ToneScale {
    let n = level * level;
    let to_byte: Vec<u8> = (0..n).map(|i| f32_to_byte(i, n)).collect();
    let to_index: Vec<u32> = (0..256u32).map(|v| f32_to_index(v as u8, n)).collect();
    ToneScale::from_tables(level, to_byte, to_index).expect("tables fit")
}

fn srgb_far(a: (u8, u8, u8), b: (u8, u8, u8)) -> bool {
    let f = |v: u8| v as f32 / 255.0;
    (f(a.0) - f(b.0)).abs() > 0.27 || (f(a.1) - f(b.1)).abs() > 0.27 || (f(a.2) - f(b.2)).abs() > 0.27
}

#[test]
fn channel_tolerance_is_the_float_threshold() {
    for a in 0..=255u8 {
        for b in 0..=255u8 {
            let pa = Pixel::new(a, 0, 0);
            let pb = Pixel::new(b, 0, 0);
            assert_eq!(pixels_close(pa, pb), !srgb_far((a, 0, 0), (b, 0, 0)), "{} {}", a, b);
        }
    }
    assert!(pixels_close(Pixel::new(0, 68, 10), Pixel::new(68, 0, 78)));
    assert!(!pixels_close(Pixel::new(0, 0, 69), Pixel::new(0, 0, 0)));
}

fn squares_identity(level: u32, t: &ToneScale) -> HaldImageRgbMap {
    let mut m = HaldImageRgbMap::new(level);
    m.generate_hald_map_squares(t);
    m
}

#[test]
fn squares_plan_of_identity_keeps_every_cell_in_place() {
    for level in 2..=4u32 {
        let t = tones(level);
        let m = squares_identity(level, &t);
        let plan = m.reverse_squares_plan(&t);
        let side = level.pow(3);
        assert_eq!(plan.len() as u32, side * side);
        for (k, ins) in plan.iter().enumerate() {
            let x = k as u32 / side;
            let y = k as u32 % side;
            assert_eq!((ins.x, ins.y, ins.x2, ins.y2), (x, y, x, y));
            assert_eq!(ins.color, m.pixel(x, y));
        }
    }
}

/// The three closeness checks of the squares inversion, in single precision.
fn float_plan(m: &HaldImageRgbMap, t: &ToneScale) -> Vec<(u32, u32, u32, u32, (u8, u8, u8))> {
    let level = m.level();
    let n = level * level;
    let side = level.pow(3);
    let canon = |x: u32, y: u32| {
        let b = (y / n) * level + x / n;
        (f32_to_byte(x % n, n), f32_to_byte(y % n, n), f32_to_byte(b, n))
    };
    let _ = t;
    let mut out = Vec::new();
    for x in 0..side {
        for y in 0..side {
            let p = m.pixel(x, y);
            let px = (p.r, p.g, p.b);
            let expected = canon(x, y);
            if srgb_far(px, expected) {
                continue;
            }
            let r = f32_to_index(px.0, n);
            let g = f32_to_index(px.1, n);
            let b = f32_to_index(px.2, n);
            let x2 = (b % level) * n + r;
            let y2 = (b / level) * n + g;
            if srgb_far(px, canon(x2, y2)) {
                continue;
            }
            if srgb_far(expected, canon(x2, y2)) {
                continue;
            }
            out.push((x, y, x2, y2, expected));
        }
    }
    out
}

#[test]
fn squares_plan_matches_float_checks() {
    let level = 3;
    let t = tones(level);
    let mut m = squares_identity(level, &t);
    let side = level.pow(3);
    for x in 0..side {
        for y in 0..side {
            let p = m.pixel(x, y);
            let shift = ((x * 7 + y * 13) % 160) as u8;
            m.set_pixel(x, y, Pixel::new(p.r.saturating_add(shift), p.g / 2, p.b.saturating_sub(shift / 3)));
        }
    }
    let plan: Vec<(u32, u32, u32, u32, (u8, u8, u8))> = m
        .reverse_squares_plan(&t)
        .iter()
        .map(|i: &SquaresInsert| (i.x, i.y, i.x2, i.y2, (i.color.r, i.color.g, i.color.b)))
        .collect();
    let want = float_plan(&m, &t);
    assert!(want.len() > 0 && want.len() < (side * side) as usize);
    assert_eq!(plan, want);
}

#[test]
fn squares_plan_skips_a_far_cell() {
    let level = 2;
    let t = tones(level);
    let mut m = squares_identity(level, &t);
    m.set_pixel(0, 0, Pixel::new(200, 0, 0));
    let plan = m.reverse_squares_plan(&t);
    assert_eq!(plan.len(), 63);
    assert_eq!((plan[0].x, plan[0].y), (0, 1));
}

#[test]
fn sample_points_follow_the_photograph_grid() {
    let m = HaldImageRgbMap::new(2);
    // n = 4; cell 5 lies in the second tile: 5 * 3 + 1 * 2 = 17, offset (3 - 2) / 2 = 0
    let pts = m.sample_points(5, 1, 3, 2, 2, 100, 100);
    assert_eq!(pts, vec![(17, 3), (17, 4), (18, 3), (18, 4)]);
    // clipped by the image border
    let pts = m.sample_points(5, 1, 3, 2, 2, 18, 4);
    assert_eq!(pts, vec![(17, 3)]);
    // odd margin: pixel size 5, sample 2 -> offset 1
    let pts = m.sample_points(0, 0, 5, 0, 2, 100, 100);
    assert_eq!(pts, vec![(1, 1), (1, 2), (2, 1), (2, 2)]);
}

#[test]
fn sample_points_match_the_nested_loops() {
    let m = HaldImageRgbMap::new(3);
    let n = 9u32;
    let (ps, ss, s, w, h) = (4u32, 6u32, 3u32, 120u32, 90u32);
    for lx in 0..27u32 {
        for ly in (0..27u32).step_by(5) {
            let sx = lx * ps + (lx / n) * ss + (ps - s) / 2;
            let sy = ly * ps + (ly / n) * ss + (ps - s) / 2;
            let mut want = Vec::new();
            for i in 0..s {
                for j in 0..s {
                    if sx + i < w && sy + j < h {
                        want.push((sx + i, sy + j));
                    }
                }
            }
            assert_eq!(m.sample_points(lx, ly, ps, ss, s, w, h), want);
        }
    }
}
