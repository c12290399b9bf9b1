use hald_lut::hald_generator::{rgb_from_xy, rgb_from_xy_squares, xy_from_rgb, xy_from_rgb_squares};
use hald_lut::pixel::Pixel;
use hald_lut::tones::ToneScale;

fn f32_to_byte(i: u32, n: u32) -> u8 {
    let scale = 255.0 / (n - 1) as f32;
    (i as f32 * scale).round() as u8
}

fn f32_to_index(v: u8, n: u32) -> u32 {
    let scale = (n - 1) as f32 / 255.0;
    (v as f32 * scale).round() as u32
}

fn tones(level: u32) -> ToneScale {
    let n = level * level;
    let to_byte: Vec<u8> = (0..n).map(|i| f32_to_byte(i, n)).collect();
    let to_index: Vec<u32> = (0..256u32).map(|v| f32_to_index(v as u8, n)).collect();
    ToneScale::from_tables(level, to_byte, to_index).expect("tables fit")
}

#[test]
fn tone_tables_accept_matching_lengths() {
    let t = tones(8);
    assert_eq!(t.level(), 8);
    assert_eq!(t.byte(0), 0);
    assert_eq!(t.byte(63), 255);
    assert_eq!(t.index(255), 63);
    assert_eq!(t.index(0), 0);
}

#[test]
fn tone_tables_reject_bad_input() {
    assert!(ToneScale::from_tables(2, vec![0; 3], vec![0; 256]).is_none());
    assert!(ToneScale::from_tables(2, vec![0; 4], vec![0; 255]).is_none());
    let mut idx = vec![0u32; 256];
    idx[200] = 4;
    assert!(ToneScale::from_tables(2, vec![0; 4], idx).is_none());
    assert!(ToneScale::from_tables(1626, vec![], vec![0; 256]).is_none());
    assert!(ToneScale::from_tables(0, vec![], vec![7; 256]).is_some());
}

#[test]
fn float_tones_round_trip_up_to_level_sixteen() {
    for level in 1..=16u32 {
        let t = tones(level);
        for i in 0..level * level {
            assert_eq!(t.index(t.byte(i)), i, "level {} shade {}", level, i);
        }
    }
}

#[test]
fn float_tones_do_not_round_trip_at_level_seventeen() {
    let t = tones(17);
    let n = 17 * 17;
    assert!((0..n).any(|i| t.index(t.byte(i)) != i));
}

#[test]
fn level_fifteen_half_step_rounds_like_single_precision() {
    // 112 * 255 / 224 is exactly 127.5; the single-precision scaling lands below it.
    let t = tones(15);
    assert_eq!(t.byte(112), 127);
}

fn float_xy_from_rgb(px: (u8, u8, u8), level: u32) -> (u32, u32) {
    let n = level.pow(2);
    let r = f32_to_index(px.0, n);
    let g = f32_to_index(px.1, n);
    let b = f32_to_index(px.2, n);
    let tile_x = g / level;
    let tile_y = b;
    (tile_x * n + r, tile_y * level + (g % level))
}

fn float_rgb_from_xy(x: u32, y: u32, level: u32) -> (u8, u8, u8) {
    let n = level.pow(2);
    let r_idx = x % n;
    let b_idx = y / level;
    let g_idx = (x / n) * level + y % level;
    (f32_to_byte(r_idx, n), f32_to_byte(g_idx, n), f32_to_byte(b_idx, n))
}

fn float_xy_from_rgb_squares(px: (u8, u8, u8), level: u32) -> (u32, u32) {
    let n = level * level;
    let r = f32_to_index(px.0, n);
    let g = f32_to_index(px.1, n);
    let b = f32_to_index(px.2, n);
    ((b % level) * n + r, (b / level) * n + g)
}

fn float_rgb_from_xy_squares(x: u32, y: u32, level: u32) -> (u8, u8, u8) {
    let n = level.pow(2);
    let b_idx = (y / n) * level + x / n;
    (f32_to_byte(x % n, n), f32_to_byte(y % n, n), f32_to_byte(b_idx, n))
}

fn triple(p: Pixel) -> (u8, u8, u8) {
    (p.r, p.g, p.b)
}

#[test]
fn coordinates_match_the_float_formulas() {
    for level in [2u32, 3, 4, 5] {
        let t = tones(level);
        let side = level * level * level;
        for x in 0..side {
            for y in 0..side {
                assert_eq!(triple(rgb_from_xy(x, y, level, &t)), float_rgb_from_xy(x, y, level));
                assert_eq!(triple(rgb_from_xy_squares(x, y, level, &t)), float_rgb_from_xy_squares(x, y, level));
            }
        }
        for r in (0..=255u32).step_by(7) {
            for g in (0..=255u32).step_by(11) {
                for b in (0..=255u32).step_by(13) {
                    let px = Pixel::new(r as u8, g as u8, b as u8);
                    let key = (r as u8, g as u8, b as u8);
                    assert_eq!(xy_from_rgb(px, level, &t), float_xy_from_rgb(key, level));
                    assert_eq!(xy_from_rgb_squares(px, level, &t), float_xy_from_rgb_squares(key, level));
                }
            }
        }
    }
}

#[test]
fn xy_from_rgb_known_values() {
    let t = tones(8);
    // white: every index is 63
    assert_eq!(xy_from_rgb(Pixel::new(255, 255, 255), 8, &t), (511, 511));
    assert_eq!(xy_from_rgb(Pixel::new(0, 0, 0), 8, &t), (0, 0));
    // pure red: r = 63 -> column 63 of the first tile
    assert_eq!(xy_from_rgb(Pixel::new(255, 0, 0), 8, &t), (63, 0));
    // pure blue: b = 63 -> tile row 63, row 63 * 8
    assert_eq!(xy_from_rgb(Pixel::new(0, 0, 255), 8, &t), (0, 504));
    assert_eq!(xy_from_rgb_squares(Pixel::new(0, 0, 255), 8, &t), (448, 448));
    assert_eq!(xy_from_rgb_squares(Pixel::new(0, 255, 0), 8, &t), (0, 63));
}

#[test]
fn rgb_from_xy_known_values() {
    let t = tones(2);
    // level 2: n = 4, shades 0, 85, 170, 255
    assert_eq!(triple(rgb_from_xy(0, 0, 2, &t)), (0, 0, 0));
    assert_eq!(triple(rgb_from_xy(7, 7, 2, &t)), (255, 255, 255));
    assert_eq!(triple(rgb_from_xy(5, 2, 2, &t)), (85, 170, 85));
    assert_eq!(triple(rgb_from_xy_squares(5, 2, 2, &t)), (85, 170, 85));
}

#[test]
fn positions_round_trip_through_colours() {
    for level in 1..=6u32 {
        let t = tones(level);
        let side = level * level * level;
        for x in 0..side {
            for y in 0..side {
                assert_eq!(xy_from_rgb(rgb_from_xy(x, y, level, &t), level, &t), (x, y));
                assert_eq!(xy_from_rgb_squares(rgb_from_xy_squares(x, y, level, &t), level, &t), (x, y));
            }
        }
    }
}

#[test]
fn float_tones_round_to_nearest() {
    for level in 1..=64u32 {
        assert!(tones(level).is_nearest_rounding(), "level {}", level);
    }
}

#[test]
fn off_by_one_tables_are_not_nearest() {
    // level 2: exact shades 0, 85, 170, 255; 87 is more than half a step from 85
    let t = ToneScale::from_tables(2, vec![0, 87, 170, 255], (0..256u32).map(|v| f32_to_index(v as u8, 4)).collect()).unwrap();
    assert!(!t.is_nearest_rounding());
    let mut idx: Vec<u32> = (0..256u32).map(|v| f32_to_index(v as u8, 4)).collect();
    idx[128] = 3; // 128 * 3 / 255 is about 1.51
    let t = ToneScale::from_tables(2, vec![0, 85, 170, 255], idx).unwrap();
    assert!(!t.is_nearest_rounding());
    let z = ToneScale::from_tables(0, vec![], vec![0; 256]).unwrap();
    assert!(!z.is_nearest_rounding());
}

#[test]
fn snapping_a_colour_moves_each_channel_by_at_most_half_a_step() {
    for level in [2u32, 3, 4, 8] {
        let t = tones(level);
        let m = (level * level - 1) as i64;
        for v in 0..=255u32 {
            let px = Pixel::new(v as u8, (255 - v) as u8, (v * 7 % 256) as u8);
            let (x, y) = xy_from_rgb(px, level, &t);
            let c = rgb_from_xy(x, y, level, &t);
            let (xs, ys) = xy_from_rgb_squares(px, level, &t);
            let cs = rgb_from_xy_squares(xs, ys, level, &t);
            for (a, b) in [(c.r, px.r), (c.g, px.g), (c.b, px.b), (cs.r, px.r), (cs.g, px.g), (cs.b, px.b)] {
                assert!((2 * m * (a as i64 - b as i64)).abs() <= m + 255);
            }
        }
    }
}

#[test]
fn grid_colours_are_fixed_by_snapping() {
    let level = 4;
    let t = tones(level);
    for x in 0..64 {
        for y in 0..64 {
            let c = rgb_from_xy(x, y, level, &t);
            let (x2, y2) = xy_from_rgb(c, level, &t);
            assert_eq!(rgb_from_xy(x2, y2, level, &t), c);
            let s = rgb_from_xy_squares(x, y, level, &t);
            let (x3, y3) = xy_from_rgb_squares(s, level, &t);
            assert_eq!(rgb_from_xy_squares(x3, y3, level, &t), s);
        }
    }
}
