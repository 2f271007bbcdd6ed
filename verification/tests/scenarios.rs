use rand::rngs::SmallRng;
use rand::SeedableRng;
use raycaster::input::MouseMotion;
use raycaster::map::{GridMap, LIGHT, OPEN, WALL};
use raycaster::ray::{look_for_horizontal, look_for_vertical, select_hit, ColumnRay, TAN_LIMIT};
use raycaster::render::{raycast, RenderConfig};
use raycaster::rotation::{Position, Rotation};
use raycaster::texture::Texture;

const TS: i64 = 12 * 65536;

fn room_from_rows(rows: &[&str]) -> GridMap {
    let height = rows.len() as i64;
    let width = rows[0].len() as i64;
    let mut tiles: Vec<u8> = Vec::new();
    for row in rows {
        assert_eq!(row.len() as i64, width);
        for c in row.bytes() {
            assert!(c == WALL || c == OPEN || c == LIGHT);
            tiles.push(c);
        }
    }
    GridMap::new(tiles, width, height)
}

fn to_fx(v: f64) -> i64 {
    (v * 65536.0).round() as i64
}

fn column_ray(abs_deg: f64, heading_deg: f64) -> ColumnRay {
    let rot = Rotation::new(to_fx(abs_deg.rem_euclid(360.0)));
    let rad = abs_deg.to_radians();
    let sin = to_fx(rad.sin()).clamp(-65536, 65536);
    let cos = to_fx(rad.cos()).clamp(-65536, 65536);
    let tan = to_fx(rad.tan()).clamp(-TAN_LIMIT, TAN_LIMIT);
    let rel = (abs_deg - heading_deg).to_radians();
    let cos_rel = to_fx(rel.cos()).clamp(0, 65536);
    ColumnRay { rot, sin, cos, tan, cos_rel }
}

fn closest_distance(m: &GridMap, pos: &Position, ray: &ColumnRay) -> Option<i64> {
    let h = look_for_horizontal(ray, pos, m, TS);
    let v = look_for_vertical(ray, pos, m, TS);
    select_hit(h, v).map(|(hit, _)| hit.distance)
}

#[test]
fn open_room_center_column_hits_wall_straight_ahead() {
    // A 3x3 open room bordered by walls; the observer stands at the center
    // heading along +x. The straight-ahead ray meets the far wall exactly
    // one and a half tiles away.
    let m = room_from_rows(&[
        "#####",
        "#...#",
        "#...#",
        "#...#",
        "#####",
    ]);
    let pos = Position::new(2 * TS + TS / 2, 2 * TS + TS / 2);
    let center = column_ray(0.0, 0.0);
    let d = closest_distance(&m, &pos, &center).expect("the room is closed");
    assert_eq!(d, TS + TS / 2);
}

#[test]
fn open_room_outer_columns_are_symmetric() {
    // Rays mirrored around the view direction report mirrored distances,
    // within fixed-point trigonometry tolerance.
    let m = room_from_rows(&[
        "#####",
        "#...#",
        "#...#",
        "#...#",
        "#####",
    ]);
    let pos = Position::new(2 * TS + TS / 2, 2 * TS + TS / 2);
    let fov = 66.0;
    let plane_w = 9;
    let step = fov / ((plane_w - 1) as f64);
    let mut dists: Vec<i64> = Vec::new();
    for k in 0..plane_w {
        let angle = -fov / 2.0 + step * (k as f64);
        let ray = column_ray(angle, 0.0);
        dists.push(closest_distance(&m, &pos, &ray).expect("the room is closed"));
    }
    for k in 0..plane_w {
        let mirror = plane_w - 1 - k;
        let delta = (dists[k] - dists[mirror]).abs();
        assert!(
            delta <= 4096,
            "columns {} and {} differ by {} fixed-point units",
            k,
            mirror,
            delta
        );
    }
}

#[test]
fn open_room_eight_columns_mirror_around_center() {
    // Eight columns with ray angles centered inside the field of view:
    // column k and column 7-k look along mirrored directions and must
    // report mirrored wall distances.
    let m = room_from_rows(&[
        "#####",
        "#...#",
        "#...#",
        "#...#",
        "#####",
    ]);
    let pos = Position::new(2 * TS + TS / 2, 2 * TS + TS / 2);
    let fov = 66.0;
    let plane_w = 8;
    let step = fov / (plane_w as f64);
    let mut dists: Vec<i64> = Vec::new();
    for k in 0..plane_w {
        let angle = -fov / 2.0 + step * (k as f64 + 0.5);
        let ray = column_ray(angle, 0.0);
        dists.push(closest_distance(&m, &pos, &ray).expect("the room is closed"));
    }
    for k in 0..plane_w {
        let mirror = plane_w - 1 - k;
        let delta = (dists[k] - dists[mirror]).abs();
        assert!(
            delta <= 4096,
            "columns {} and {} differ by {} fixed-point units",
            k,
            mirror,
            delta
        );
    }
}

#[test]
fn unbounded_grid_reports_no_hit_within_cap() {
    // An open grid with no boundary wall: the stepper must terminate at
    // its iteration cap and report no hit rather than hang.
    let m = room_from_rows(&[
        "....",
        "....",
        "....",
        "....",
    ]);
    let pos = Position::new(2 * TS, 2 * TS);
    let ray = column_ray(30.0, 30.0);
    assert_eq!(closest_distance(&m, &pos, &ray), None);
}

#[test]
fn axis_parallel_ray_skips_its_family() {
    let m = room_from_rows(&[
        "#####",
        "#...#",
        "#####",
    ]);
    let pos = Position::new(2 * TS + TS / 2, TS + TS / 2);
    // Heading exactly along +x: the horizontal family reports no hit, the
    // vertical family finds the wall.
    let along_x = column_ray(0.0, 0.0);
    assert_eq!(look_for_horizontal(&along_x, &pos, &m, TS), None);
    assert!(look_for_vertical(&along_x, &pos, &m, TS).is_some());
    // Heading exactly along +y: the roles swap.
    let along_y = column_ray(90.0, 90.0);
    assert_eq!(look_for_vertical(&along_y, &pos, &m, TS), None);
    assert!(look_for_horizontal(&along_y, &pos, &m, TS).is_some());
}

fn checker_texture(side: i64) -> Texture {
    let mut data: Vec<u8> = Vec::new();
    for y in 0..side {
        for x in 0..side {
            let v = if (x + y) % 2 == 0 { 200u8 } else { 60u8 };
            data.push(v);
            data.push(v);
            data.push(v);
        }
    }
    Texture::new(data, side, side)
}

#[test]
fn texture_lookup_and_sentinel() {
    let t = checker_texture(4);
    assert_eq!(t.width(), 4);
    assert_eq!(t.height(), 4);
    assert_eq!(t.color_at(0, 0), (200, 200, 200));
    assert_eq!(t.color_at(1, 0), (60, 60, 60));
    assert_eq!(t.color_at(-1, 0), (0, 0, 0));
    assert_eq!(t.color_at(0, 9), (0, 0, 0));
}

#[test]
fn pixel_store_is_dropped_outside_the_frame() {
    let t = checker_texture(4);
    let mut buf = vec![0u8; 4 * 8 * 8];
    let before = buf.clone();
    t.copy_to_ex(0, 0, -1, 3, &mut buf, None, 8, 8);
    t.copy_to_ex(0, 0, 3, 8, &mut buf, None, 8, 8);
    assert_eq!(buf, before);
}

#[test]
fn pixel_store_writes_four_bytes() {
    let t = checker_texture(4);
    let mut buf = vec![0u8; 4 * 8 * 8];
    t.copy_to_ex(0, 0, 2, 1, &mut buf, None, 8, 8);
    let idx = 4 * (1 * 8 + 2);
    assert_eq!(&buf[idx..idx + 4], &[200, 200, 200, 255]);
    // Every other byte stays untouched.
    for (i, b) in buf.iter().enumerate() {
        if !(idx..idx + 4).contains(&i) {
            assert_eq!(*b, 0);
        }
    }
}

#[test]
fn pixel_store_applies_shading() {
    let t = checker_texture(4);
    let mut buf = vec![0u8; 4 * 8 * 8];
    // Half intensity on a 200-valued texel gives 100.
    t.copy_to_ex(0, 0, 0, 0, &mut buf, Some((32768, 32768, 32768)), 8, 8);
    assert_eq!(&buf[0..4], &[100, 100, 100, 255]);
}

#[test]
fn wall_strip_stays_in_its_column() {
    let t = checker_texture(4);
    let mut buf = vec![0u8; 4 * 8 * 8];
    t.draw_strip_at(5, 1, -2, 12, &mut buf, 8, 8);
    for y in 0..8usize {
        for x in 0..8usize {
            let idx = 4 * (y * 8 + x);
            if x == 5 {
                assert_eq!(buf[idx + 3], 255);
            } else {
                assert_eq!(&buf[idx..idx + 4], &[0, 0, 0, 0]);
            }
        }
    }
}

#[test]
fn full_frame_render_draws_walls() {
    let m = room_from_rows(&[
        "######",
        "#....#",
        "#.l..#",
        "#....#",
        "######",
    ]);
    let cfg = RenderConfig { plane_w: 64, plane_h: 48, tile_fx: TS, dtp_fx: to_fx(49.2) };
    let pos = Position::new(3 * TS, 2 * TS + TS / 2);
    let heading = 0.0;
    let fov = 66.0;
    let step = fov / (cfg.plane_w as f64);
    let mut rays: Vec<ColumnRay> = Vec::new();
    for k in 0..cfg.plane_w {
        let angle = heading - fov / 2.0 + step * (k as f64);
        rays.push(column_ray(angle, heading));
    }
    let wall = checker_texture(8);
    let floor = checker_texture(8);
    let mut frame = vec![0u8; (4 * cfg.plane_w * cfg.plane_h) as usize];
    let mut rng = SmallRng::seed_from_u64(42);
    raycast(&cfg, &pos, &rays, &mut frame, &wall, &floor, &m, &mut rng);
    assert_eq!(frame.len(), (4 * cfg.plane_w * cfg.plane_h) as usize);
    // The center of the frame faces a wall straight ahead: that pixel was
    // written.
    let cx = (cfg.plane_w / 2) as usize;
    let cy = (cfg.plane_h / 2) as usize;
    let idx = 4 * (cy * cfg.plane_w as usize + cx);
    assert_eq!(frame[idx + 3], 255);
}

#[test]
fn mouse_motion_set_and_clear() {
    let mut mm = MouseMotion::new();
    assert_eq!((mm.delta_x(), mm.delta_y()), (0, 0));
    mm.set(5, -3);
    assert_eq!((mm.delta_x(), mm.delta_y()), (5, -3));
    mm.clear();
    assert_eq!((mm.delta_x(), mm.delta_y()), (0, 0));
}

#[test]
fn render_leaves_missing_columns_untouched() {
    // An open grid with no walls at all: every column's ray misses, so the
    // renderer must leave the whole frame exactly as it was.
    let m = room_from_rows(&[
        "....",
        "....",
        "....",
        "....",
    ]);
    let cfg = RenderConfig { plane_w: 16, plane_h: 12, tile_fx: TS, dtp_fx: to_fx(12.3) };
    let pos = Position::new(2 * TS, 2 * TS);
    let fov = 66.0;
    let step = fov / (cfg.plane_w as f64);
    let mut rays: Vec<ColumnRay> = Vec::new();
    for k in 0..cfg.plane_w {
        rays.push(column_ray(-fov / 2.0 + step * (k as f64), 0.0));
    }
    let wall = checker_texture(8);
    let floor = checker_texture(8);
    let mut frame = vec![7u8; (4 * cfg.plane_w * cfg.plane_h) as usize];
    let before = frame.clone();
    let mut rng = SmallRng::seed_from_u64(5);
    raycast(&cfg, &pos, &rays, &mut frame, &wall, &floor, &m, &mut rng);
    assert_eq!(frame, before);
}
