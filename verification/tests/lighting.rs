use rand::rngs::SmallRng;
use rand::SeedableRng;
use raycaster::light::{light_intensity, INTENSITY_CAP};
use raycaster::map::{GridMap, LIGHT, OPEN, WALL};
use raycaster::ray::Side;

const TS: i64 = 12 * 65536;

fn grid_from_rows(rows: &[&str]) -> GridMap {
    let height = rows.len() as i64;
    let width = rows[0].len() as i64;
    let mut tiles: Vec<u8> = Vec::new();
    for row in rows {
        assert_eq!(row.len() as i64, width);
        for c in row.bytes() {
            assert!(c == WALL || c == OPEN || c == LIGHT);
            tiles.push(c);
        }
    }
    GridMap::new(tiles, width, height)
}

#[test]
fn light_behind_wall_is_not_recorded() {
    // The only light sits behind a wall that lies directly on the
    // connecting line from the queried cell.
    let m = grid_from_rows(&[
        ".....",
        ".....",
        "l#...",
        ".....",
        ".....",
    ]);
    assert_eq!(m.nearest_light(4, 2), None);
}

#[test]
fn unobstructed_light_is_recorded() {
    let m = grid_from_rows(&[
        ".....",
        ".....",
        "l....",
        ".....",
        ".....",
    ]);
    assert_eq!(m.nearest_light(4, 2), Some((0, 2)));
}

#[test]
fn every_cell_with_line_of_sight_sees_the_single_light() {
    // One light in an otherwise light-less grid with a short wall: cells in
    // the open see it, the cell straight behind the wall does not.
    let m = grid_from_rows(&[
        ".....",
        ".....",
        "l#...",
        ".....",
        ".....",
    ]);
    for y in 0..5i64 {
        for x in 0..5i64 {
            let visible = m.sees((x, y), (0, 2));
            assert_eq!(m.nearest_light(x, y).is_some(), visible);
        }
    }
}

#[test]
fn nearest_light_prefers_closer_source() {
    let m = grid_from_rows(&[
        "l....",
        ".....",
        ".....",
        ".....",
        "....l",
    ]);
    // Scan order lists (0,0) first, then (4,4); the query cell is nearer
    // the second light.
    assert_eq!(m.nearest_light(4, 3), Some((4, 4)));
    assert_eq!(m.nearest_light(0, 1), Some((0, 0)));
}

#[test]
fn nearest_light_tie_keeps_scan_order() {
    let m = grid_from_rows(&[
        "l...l",
        ".....",
        ".....",
        ".....",
        ".....",
    ]);
    // The middle of the top row is equally far from both lights; the
    // earlier light in row-major scan order wins.
    assert_eq!(m.nearest_light(2, 0), Some((0, 0)));
}

#[test]
fn out_of_range_cells_have_no_light() {
    let m = grid_from_rows(&["l.", ".."]);
    assert_eq!(m.nearest_light(-1, 0), None);
    assert_eq!(m.nearest_light(0, 5), None);
}

#[test]
fn no_visible_light_means_zero_intensity() {
    assert_eq!(light_intensity(None, TS / 2), 0);
}

#[test]
fn touching_distance_saturates_intensity() {
    // A distance that quantizes to zero saturates at the cap.
    assert_eq!(light_intensity(Some(0), TS / 2), INTENSITY_CAP);
    assert_eq!(light_intensity(Some(TS / 5), TS / 2), INTENSITY_CAP);
}

#[test]
fn far_band_intensity_exact_value() {
    // 200 world units quantize to 198 (multiples of half a tile, 6 units):
    // the far band is a plain reciprocal, 2^32 / (198 * 65536) = 330.
    let d = 200 * 65536;
    assert_eq!(light_intensity(Some(d), TS / 2), 330);
}

#[test]
fn intensity_never_exceeds_cap() {
    let half = TS / 2;
    let mut d: i64 = 0;
    while d < 300 * 65536 {
        let i = light_intensity(Some(d), half);
        assert!(0 <= i && i <= INTENSITY_CAP);
        d += 7 * 65536 + 13;
    }
}

#[test]
fn intensity_is_non_increasing_within_bands() {
    let half = TS / 2;
    // Near band.
    let mut prev = light_intensity(Some(0), half);
    let mut d: i64 = 0;
    while d < 59 * 65536 {
        let cur = light_intensity(Some(d), half);
        assert!(cur <= prev || cur == prev);
        prev = cur.min(prev);
        d += 65536;
    }
    // Middle band.
    prev = light_intensity(Some(60 * 65536), half);
    d = 60 * 65536;
    while d <= 100 * 65536 {
        let cur = light_intensity(Some(d), half);
        assert!(cur <= prev);
        prev = cur;
        d += 65536;
    }
    // Far band.
    prev = light_intensity(Some(101 * 65536), half);
    d = 101 * 65536;
    while d < 300 * 65536 {
        let cur = light_intensity(Some(d), half);
        assert!(cur <= prev);
        prev = cur;
        d += 65536;
    }
}

#[test]
fn floor_dither_stays_in_stated_band() {
    // A floor sample taken at the light's own anchor point: the whole
    // reported distance is the dither, which must lie in [1, 18) world
    // units. A range primitive that ignored its bounds would fail this.
    let m = grid_from_rows(&[
        "l....",
        ".....",
        ".....",
        ".....",
        ".....",
    ]);
    let mut rng = SmallRng::seed_from_u64(7);
    for _ in 0..200 {
        let d = m
            .distance_to_light(TS / 4, TS / 4, &mut rng, Side::Floor, TS)
            .expect("the cell holds its own light");
        assert!(65536 <= d && d < 18 * 65536);
    }
}

#[test]
fn wall_sample_at_the_anchor_has_zero_distance() {
    let m = grid_from_rows(&[
        "l....",
        ".....",
        ".....",
        ".....",
        ".....",
    ]);
    let mut rng = SmallRng::seed_from_u64(11);
    // A wall sample taken at the light's own anchor: the axis nudge has a
    // zero sign inside the light's cell and nothing is added afterwards.
    for _ in 0..100 {
        let d = m
            .distance_to_light(TS / 4, TS / 4, &mut rng, Side::Horizontal, TS)
            .expect("the cell holds its own light");
        assert_eq!(d, 0);
    }
}

#[test]
fn dark_cell_reports_no_distance() {
    let m = grid_from_rows(&[
        "l#...",
        ".#...",
        "##...",
        ".....",
        ".....",
    ]);
    let mut rng = SmallRng::seed_from_u64(3);
    // The cell at (4, 0) is walled off from the only light.
    let d = m.distance_to_light(4 * TS + TS / 2, TS / 2, &mut rng, Side::Floor, TS);
    assert_eq!(d, None);
}

#[test]
fn exact_light_distance_is_deterministic() {
    // The undithered query: a point three units right of the light's
    // anchor reports exactly three units, every time.
    let m = grid_from_rows(&[
        "l....",
        ".....",
        ".....",
        ".....",
        ".....",
    ]);
    let x = TS / 4 + 3 * 65536;
    let y = TS / 4;
    for _ in 0..3 {
        assert_eq!(m.distance_to_light_exact(x, y, Side::Horizontal, TS), Some(3 * 65536));
    }
}

#[test]
fn exact_light_distance_none_when_dark() {
    let m = grid_from_rows(&[
        "l#...",
        ".#...",
        "##...",
        ".....",
        ".....",
    ]);
    assert_eq!(m.distance_to_light_exact(4 * TS + TS / 2, TS / 2, Side::Floor, TS), None);
}

#[test]
fn built_in_grid_landmarks() {
    let m = GridMap::default();
    assert_eq!((m.width, m.height), (18, 18));
    // The border is walled; the interior near the observer start is open.
    for i in 0..18i64 {
        assert!(m.is_blocking_at((i, 0)));
        assert!(m.is_blocking_at((i, 17)));
        assert!(m.is_blocking_at((0, i)));
        assert!(m.is_blocking_at((17, i)));
    }
    assert!(!m.is_blocking_at((5, 5)));
    // The single light sits in the small room and lights its neighbors.
    assert_eq!(m.nearest_light(6, 12), Some((5, 12)));
}
