use hald_lut::hald_generator::{rgb_from_xy, rgb_from_xy_squares, HaldImageRgbMap};
use hald_lut::pixel::Pixel;
use hald_lut::tones::ToneScale;

fn f32_to_byte(i: u32, n: u32) -> u8 {
    let scale = 255.0 / (n - 1) as f32;
    (i as f32 * scale).round() as u8
}

fn f32_to_index(v: u8, n: u32) -> u32 {
    let scale = (n - 1) as f32 / 255.0;
    (v as f32 * scale).round() as u32
}

fn tones(level: u32) -> ToneScale {
    let n = level * level;
    let to_byte: Vec<u8> = (0..n).map(|i| f32_to_byte(i, n)).collect();
    let to_index: Vec<u32> = (0..256u32).map(|v| f32_to_index(v as u8, n)).collect();
    ToneScale::from_tables(level, to_byte, to_index).expect("tables fit")
}

type Grid = Vec<Vec<(u8, u8, u8)>>;

fn cells(m: &HaldImageRgbMap) -> Grid {
    let side = m.side();
    (0..side)
        .map(|x| {
            (0..side)
                .map(|y| {
                    let p = m.pixel(x, y);
                    (p.r, p.g, p.b)
                })
                .collect()
        })
        .collect()
}

/// The standard generator as written with single-precision scaling.
fn float_generate(level: u32) -> Grid {
    let n = level.pow(2);
    let size = level.pow(3) as usize;
    let mut map = vec![vec![(0u8, 0u8, 0u8); size]; size];
    for r in 0..n {
        for g in 0..n {
            for b in 0..n {
                let x = (g / level) * n + r;
                let y = b * level + g % level;
                let scale = 255.0 / (n - 1) as f32;
                let pr = (r as f32 * scale).round() as u8;
                let pg = ((((g % level) * level) + (g / level)) as f32 * scale).round() as u8;
                let pb = (b as f32 * scale).round() as u8;
                map[x as usize][y as usize] = (pr, pg, pb);
            }
        }
    }
    map
}

/// The squares generator as written with single-precision scaling.
fn float_generate_squares(level: u32) -> Grid {
    let n = level * level;
    let size = (level * n) as usize;
    let scale = 255.0 / (n - 1) as f32;
    let mut map = vec![vec![(0u8, 0u8, 0u8); size]; size];
    for b in 0..n {
        for g in 0..n {
            for r in 0..n {
                let x = (b % level) * n + r;
                let y = (b / level) * n + g;
                map[x as usize][y as usize] = (
                    (r as f32 * scale).round() as u8,
                    (g as f32 * scale).round() as u8,
                    (b as f32 * scale).round() as u8,
                );
            }
        }
    }
    map
}

fn float_reverse(src: &Grid, level: u32) -> Grid {
    let n = level.pow(2);
    let mut out = float_generate(level);
    let side = level.pow(3);
    for x in 0..side {
        for y in 0..side {
            let px = src[x as usize][y as usize];
            let r = f32_to_index(px.0, n);
            let g = f32_to_index(px.1, n);
            let b = f32_to_index(px.2, n);
            let x2 = (g / level) * n + r;
            let y2 = b * level + g % level;
            let rgb = (
                f32_to_byte(x % n, n),
                f32_to_byte((x / n) * level + y % level, n),
                f32_to_byte(y / level, n),
            );
            out[x2 as usize][y2 as usize] = rgb;
        }
    }
    out
}

#[test]
fn new_table_is_black_and_square() {
    let m = HaldImageRgbMap::new(2);
    assert_eq!(m.level(), 2);
    assert_eq!(m.side(), 8);
    let g = cells(&m);
    assert_eq!(g.len(), 8);
    assert!(g.iter().all(|row| row.len() == 8 && row.iter().all(|p| *p == (0, 0, 0))));
    let empty = HaldImageRgbMap::new(0);
    assert_eq!(empty.side(), 0);
}

#[test]
fn generate_matches_float_generator() {
    for level in 1..=6u32 {
        let t = tones(level);
        let mut m = HaldImageRgbMap::new(level);
        m.generate_hald_map(&t);
        assert_eq!(cells(&m), float_generate(level), "level {}", level);
    }
}

#[test]
fn generate_squares_matches_float_generator() {
    for level in 2..=6u32 {
        let t = tones(level);
        let mut m = HaldImageRgbMap::new(level);
        m.generate_hald_map_squares(&t);
        assert_eq!(cells(&m), float_generate_squares(level), "level {}", level);
    }
}

#[test]
fn generate_on_level_zero_leaves_empty_table() {
    let t = ToneScale::from_tables(0, vec![], vec![0; 256]).unwrap();
    let mut m = HaldImageRgbMap::new(0);
    m.generate_hald_map(&t);
    assert_eq!(m.side(), 0);
}

#[test]
fn generate_level_two_known_cells() {
    let t = tones(2);
    let mut m = HaldImageRgbMap::new(2);
    m.generate_hald_map(&t);
    // index (r, g, b) = (1, 2, 3): x = (2 / 2) * 4 + 1 = 5, y = 3 * 2 + 0 = 6,
    // stored green index (2 % 2) * 2 + 2 / 2 = 1
    let p = m.pixel(5, 6);
    assert_eq!((p.r, p.g, p.b), (85, 85, 255));
    let w = m.pixel(7, 7);
    assert_eq!((w.r, w.g, w.b), (255, 255, 255));
}

#[test]
fn generating_twice_gives_the_same_table() {
    let t = tones(3);
    let mut m = HaldImageRgbMap::new(3);
    m.generate_hald_map(&t);
    let once = cells(&m);
    m.set_pixel(4, 4, Pixel::new(1, 2, 3));
    m.generate_hald_map(&t);
    assert_eq!(cells(&m), once);
}

#[test]
fn set_pixel_changes_one_cell() {
    let mut m = HaldImageRgbMap::new(2);
    m.set_pixel(3, 5, Pixel::new(9, 8, 7));
    let g = cells(&m);
    for x in 0..8 {
        for y in 0..8 {
            let want = if (x, y) == (3, 5) { (9, 8, 7) } else { (0, 0, 0) };
            assert_eq!(g[x][y], want);
        }
    }
}

#[test]
fn reverse_of_identity_is_identity() {
    for level in 1..=5u32 {
        let t = tones(level);
        let mut m = HaldImageRgbMap::new(level);
        m.generate_hald_map(&t);
        let id = cells(&m);
        let rev = m.reverse_map(&t);
        assert_eq!(cells(&rev), id, "level {}", level);
    }
}

#[test]
fn reverse_matches_float_inversion() {
    for level in [2u32, 3, 4] {
        let t = tones(level);
        let side = level.pow(3);
        let mut m = HaldImageRgbMap::new(level);
        m.generate_hald_map(&t);
        // distort the table: darken every channel
        let mut src = cells(&m);
        for x in 0..side {
            for y in 0..side {
                let p = src[x as usize][y as usize];
                let q = (p.0 / 2, p.1 / 3 * 2, 255 - p.2 / 4);
                src[x as usize][y as usize] = q;
                m.set_pixel(x, y, Pixel::new(q.0, q.1, q.2));
            }
        }
        let rev = m.reverse_map(&t);
        assert_eq!(cells(&rev), float_reverse(&src, level), "level {}", level);
    }
}

#[test]
fn reverse_of_black_table_writes_identity_of_last_cell_to_origin() {
    // every measured colour is black, naming position (0, 0); the last cell
    // visited is (7, 7), whose identity colour is white
    let t = tones(2);
    let m = HaldImageRgbMap::new(2);
    let rev = m.reverse_map(&t);
    let p = rev.pixel(0, 0);
    assert_eq!((p.r, p.g, p.b), (255, 255, 255));
    let mut id = HaldImageRgbMap::new(2);
    id.generate_hald_map(&t);
    let q = rev.pixel(3, 4);
    let e = id.pixel(3, 4);
    assert_eq!((q.r, q.g, q.b), (e.r, e.g, e.b));
}

#[test]
fn squares_table_holds_the_colour_of_each_position() {
    let level = 3;
    let t = tones(level);
    let mut m = HaldImageRgbMap::new(level);
    m.generate_hald_map_squares(&t);
    for x in 0..27 {
        for y in 0..27 {
            assert_eq!(m.pixel(x, y), rgb_from_xy_squares(x, y, level, &t));
        }
    }
}

#[test]
fn standard_table_stores_the_swapped_green_index() {
    let level = 2;
    let t = tones(level);
    let mut m = HaldImageRgbMap::new(level);
    m.generate_hald_map(&t);
    // (0, 0): green index 0 is its own swap
    assert_eq!(m.pixel(0, 0), rgb_from_xy(0, 0, level, &t));
    // (4, 0): green index 2 = digits (1, 0), stored swapped as 1
    let stored = m.pixel(4, 0);
    let plain = rgb_from_xy(4, 0, level, &t);
    assert_eq!((stored.g, plain.g), (85, 170));
    assert_eq!((stored.r, stored.b), (plain.r, plain.b));
}

#[test]
fn squares_table_is_a_rearrangement_of_the_standard_one() {
    for level in 2..=4u32 {
        let t = tones(level);
        let mut a = HaldImageRgbMap::new(level);
        a.generate_hald_map_squares(&t);
        let mut b = HaldImageRgbMap::new(level);
        b.generate_hald_map(&t);
        let mut ca: Vec<(u8, u8, u8)> = cells(&a).concat();
        let mut cb: Vec<(u8, u8, u8)> = cells(&b).concat();
        let side = level.pow(3);
        assert_eq!(a.pixel(0, 0), b.pixel(0, 0));
        assert_eq!(a.pixel(side - 1, side - 1), b.pixel(side - 1, side - 1));
        ca.sort();
        cb.sort();
        assert_eq!(ca, cb);
        let mut dedup = cb.clone();
        dedup.dedup();
        assert_eq!(dedup.len(), cb.len());
    }
}

#[test]
fn xy_of_standard_identity_swaps_green_digits() {
    for level in 2..=4u32 {
        let t = tones(level);
        let n = level * level;
        let side = level.pow(3);
        let mut h = HaldImageRgbMap::new(level);
        h.generate_hald_map(&t);
        for x in 0..side {
            for y in 0..side {
                let want = ((y % level) * n + x % n, (y / level) * level + x / n);
                assert_eq!(hald_lut::hald_generator::xy_from_rgb(h.pixel(x, y), level, &t), want);
            }
        }
    }
}

#[test]
fn xy_of_squares_identity_is_the_position() {
    let level = 3;
    let t = tones(level);
    let mut h = HaldImageRgbMap::new(level);
    h.generate_hald_map_squares(&t);
    for x in 0..27 {
        for y in 0..27 {
            assert_eq!(hald_lut::hald_generator::xy_from_rgb_squares(h.pixel(x, y), level, &t), (x, y));
        }
    }
}
