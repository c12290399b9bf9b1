use hald_lut::canvas::RgbCanvas;
use hald_lut::hald_generator::HaldImageRgbMap;
use hald_lut::pixel::Pixel;
use hald_lut::tones::ToneScale;

fn f32_to_byte(i: u32, n: u32) -> u8 {
    let scale = 255.0 / (n - 1) as f32;
    (i as f32 * scale).round() as u8
}

fn f32_to_index(v: u8, n: u32) -> u32 {
    let scale = (n - 1) as f32 / 255.0;
    (v as f32 * scale).round() as u32
}

fn tones(level: u32) -> ToneScale {
    let n = level * level;
    let to_byte: Vec<u8> = (0..n).map(|i| f32_to_byte(i, n)).collect();
    let to_index: Vec<u32> = (0..256u32).map(|v| f32_to_index(v as u8, n)).collect();
    ToneScale::from_tables(level, to_byte, to_index).expect("tables fit")
}

fn identity(level: u32) -> HaldImageRgbMap {
    let mut m = HaldImageRgbMap::new(level);
    m.generate_hald_map(&tones(level));
    m
}

fn pixels(c: RgbCanvas) -> (u32, u32, Vec<(u8, u8, u8)>) {
    let (w, h) = c.dimensions();
    let bytes = c.into_bytes();
    let px = (0..(w * h) as usize).map(|i| (bytes[3 * i], bytes[3 * i + 1], bytes[3 * i + 2])).collect();
    (w, h, px)
}

struct Geometry {
    lut_min: u32,
    lut_max: u32,
    n: u32,
    space: u32,
    border: u32,
}

impl Geometry {
    fn inside(&self, x: u32, y: u32) -> bool {
        x >= self.lut_min
            && x <= self.lut_max
            && y >= self.lut_min
            && y <= self.lut_max
            && ((x - self.lut_min) % (self.n + self.space) < self.n)
            && ((y - self.lut_min) % (self.n + self.space) < self.n)
    }
    fn coord(&self, p: u32) -> usize {
        (p - self.border - (p - self.lut_min) / (self.n + self.space) * self.space) as usize
    }
}

/// The rendering written out branch by branch.
fn reference_frame(m: &HaldImageRgbMap) -> (u32, Vec<(u8, u8, u8)>) {
    let level = m.level();
    let lut_size = level.pow(3);
    let border = 10;
    let space = 5;
    let final_size = lut_size + (border * 2) + space * (level - 1);
    let n = level.pow(2);
    let g = Geometry { lut_min: border, lut_max: border + lut_size - 1 + space * (level - 1), n, space, border };
    let cell = |x: usize, y: usize| {
        let p = m.pixel(x as u32, y as u32);
        (p.r, p.g, p.b)
    };
    let offsets: [(i32, i32); 24] = [
        (-1, 0), (0, -1), (-1, -1), (1, 0), (0, 1), (1, 1), (1, -1), (-1, 1),
        (-2, 0), (0, -2), (-2, -2), (2, 0), (0, 2), (2, 2), (2, -2), (-2, 2),
        (-2, -1), (-2, 1), (2, -1), (2, 1), (-1, -2), (1, -2), (-1, 2), (1, 2),
    ];
    let mut out = vec![(0u8, 0u8, 0u8); (final_size * final_size) as usize];
    for y in 0..final_size {
        for x in 0..final_size {
            let (lo, hi) = (g.lut_min, g.lut_max);
            let color = if g.inside(x, y) {
                cell(g.coord(x), g.coord(y))
            } else if x >= lo && x <= hi && y >= lo && y <= hi {
                let mut found = (255, 255, 255);
                for (dx, dy) in offsets.iter() {
                    let nx = (x as i32 + dx) as u32;
                    let ny = (y as i32 + dy) as u32;
                    if g.inside(nx, ny) {
                        found = cell(g.coord(nx), g.coord(ny));
                        break;
                    }
                }
                found
            } else {
                let marker = (x == lo && y < lo) || (y == lo && x < lo) || (x == hi && y < lo) || (y == lo && x > hi)
                    || (x == lo && y > hi) || (y == hi && x < lo) || (x == hi && y > hi) || (y == hi && x > hi);
                if marker { (0, 0, 0) } else { (255, 255, 255) }
            };
            out[(y * final_size + x) as usize] = color;
        }
    }
    (final_size, out)
}

#[test]
fn frame_matches_the_branchwise_rendering() {
    for level in 1..=4u32 {
        let m = identity(level);
        let (side, want) = reference_frame(&m);
        let (w, h, got) = pixels(m.generate_HALD());
        assert_eq!((w, h), (side, side));
        assert_eq!(got, want, "level {}", level);
    }
}

#[test]
fn frame_of_level_eight_has_expected_size() {
    let m = identity(8);
    let (w, h, _) = pixels(m.generate_HALD());
    assert_eq!((w, h), (512 + 20 + 35, 512 + 20 + 35));
}

#[test]
fn frame_shows_each_cell_at_its_tile_position() {
    let level = 3;
    let m = identity(level);
    let (w, _, got) = pixels(m.generate_HALD());
    let n = level * level;
    for x in 0..27u32 {
        for y in 0..27u32 {
            let fx = 10 + x + (x / n) * 5;
            let fy = 10 + y + (y / n) * 5;
            let p = m.pixel(x, y);
            assert_eq!(got[(fy * w + fx) as usize], (p.r, p.g, p.b));
        }
    }
}

#[test]
fn frame_corner_marks_and_border() {
    let level = 2;
    let m = identity(level);
    let (w, _, got) = pixels(m.generate_HALD());
    let at = |x: u32, y: u32| got[(y * w + x) as usize];
    // side 8 + 20 + 5 = 33, table spans 10..=22
    assert_eq!(w, 33);
    for t in 0..10 {
        assert_eq!(at(10, t), (0, 0, 0));
        assert_eq!(at(t, 10), (0, 0, 0));
        assert_eq!(at(22, t), (0, 0, 0));
        assert_eq!(at(t, 22), (0, 0, 0));
    }
    for t in 23..33 {
        assert_eq!(at(10, t), (0, 0, 0));
        assert_eq!(at(22, t), (0, 0, 0));
        assert_eq!(at(t, 10), (0, 0, 0));
        assert_eq!(at(t, 22), (0, 0, 0));
    }
    assert_eq!(at(0, 0), (255, 255, 255));
    assert_eq!(at(32, 32), (255, 255, 255));
    assert_eq!(at(5, 16), (255, 255, 255));
}

#[test]
fn frame_gap_pixels_take_a_neighbouring_tile_colour() {
    let level = 2;
    let m = identity(level);
    let (w, _, got) = pixels(m.generate_HALD());
    let at = |x: u32, y: u32| got[(y * w + x) as usize];
    // tiles of 4 pixels at 10..=13 and 19..=22; gap 14..=18
    let c = |x: u32, y: u32| {
        let p = m.pixel(x, y);
        (p.r, p.g, p.b)
    };
    // (14, 10): left neighbour (13, 10) is table cell (3, 0)
    assert_eq!(at(14, 10), c(3, 0));
    // (15, 10): distance two to the left, (13, 10)
    assert_eq!(at(15, 10), c(3, 0));
    // (16, 10): the middle of the gap has no tile within two pixels
    assert_eq!(at(16, 10), (255, 255, 255));
    // (18, 10): right neighbour (19, 10) is table cell (4, 0)
    assert_eq!(at(18, 10), c(4, 0));
    // (16, 16): centre of the cross of gaps stays white
    assert_eq!(at(16, 16), (255, 255, 255));
}

#[test]
fn canvas_bytes_round_trip() {
    let bytes: Vec<u8> = (0..2 * 3 * 3).map(|i| i as u8).collect();
    let c = RgbCanvas::from_bytes(2, 3, bytes.clone()).expect("exact length");
    assert_eq!(c.dimensions(), (2, 3));
    assert_eq!(c.into_bytes(), bytes);
    assert!(RgbCanvas::from_bytes(2, 3, vec![0; 17]).is_none());
    assert!(RgbCanvas::from_bytes(2, 3, vec![0; 19]).is_none());
}

#[test]
fn canvas_put_pixel_changes_one_pixel() {
    let mut c = RgbCanvas::new(3, 2);
    c.put_pixel(2, 1, Pixel::new(7, 8, 9));
    let (_, _, px) = pixels(c);
    for (i, p) in px.iter().enumerate() {
        if i == 5 {
            assert_eq!(*p, (7, 8, 9));
        } else {
            assert_eq!(*p, (0, 0, 0));
        }
    }
}

#[test]
fn grid_lines_cross_at_gap_centres() {
    // level 2: one gap; pixel size 1, gap 5 -> centre 4 * 1 + 0 * 5 + 2 = 6
    let m = HaldImageRgbMap::new(2);
    let mut c = RgbCanvas::from_bytes(13, 13, vec![200; 13 * 13 * 3]).unwrap();
    m.draw_grid(&mut c, 1, 5);
    let (w, _, px) = pixels(c);
    for y in 0..13u32 {
        for x in 0..13u32 {
            let want = if x == 6 || y == 6 { (0, 0, 0) } else { (200, 200, 200) };
            assert_eq!(px[(y * w + x) as usize], want, "({}, {})", x, y);
        }
    }
}

#[test]
fn grid_lines_outside_the_image_are_skipped() {
    // level 3: gaps at 9*2 + 0 + 1 = 19 and 9*2*2 + 3 + 1 = 40; the second falls outside
    let m = HaldImageRgbMap::new(3);
    let mut c = RgbCanvas::from_bytes(30, 25, vec![9; 30 * 25 * 3]).unwrap();
    m.draw_grid(&mut c, 2, 3);
    let (w, _, px) = pixels(c);
    for y in 0..25u32 {
        for x in 0..30u32 {
            let want = if x == 19 || y == 19 { (0, 0, 0) } else { (9, 9, 9) };
            assert_eq!(px[(y * w + x) as usize], want);
        }
    }
}

#[test]
fn unit_scale_grid_marks_gap_centres_and_keeps_tiles() {
    // level 3 at 1:1 scale: side 27 + 2 * 5 = 37, gap centres at 9 + 5 - 3 = 11 and 2 * 14 - 3 = 25
    let m = HaldImageRgbMap::new(3);
    let bytes: Vec<u8> = (0..37 * 37 * 3).map(|i| (i % 251) as u8).collect();
    let mut c = RgbCanvas::from_bytes(37, 37, bytes.clone()).unwrap();
    m.draw_grid(&mut c, 1, 5);
    let (w, _, px) = pixels(c);
    for y in 0..37u32 {
        for x in 0..37u32 {
            let i = (y * w + x) as usize;
            if x == 11 || x == 25 || y == 11 || y == 25 {
                assert_eq!(px[i], (0, 0, 0));
            } else {
                assert_eq!(px[i], (bytes[3 * i], bytes[3 * i + 1], bytes[3 * i + 2]));
            }
            if x % 14 < 9 && y % 14 < 9 {
                assert_eq!(px[i], (bytes[3 * i], bytes[3 * i + 1], bytes[3 * i + 2]));
            }
        }
    }
}

#[test]
fn wide_empty_canvas() {
    let c = RgbCanvas::new(0x6000_0000, 0);
    assert_eq!(c.dimensions(), (0x6000_0000, 0));
    let d = RgbCanvas::from_bytes(0x6000_0000, 0, vec![]).expect("3 * width fits in a 64-bit usize");
    assert_eq!(d.into_bytes().len(), 0);
}
