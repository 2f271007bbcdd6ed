use raycaster::fixed::{floor_div, floor_rem, isqrt, round_to_multiple, tile_frac_scaled};
use raycaster::line::{get_line, raycast};
use raycaster::ray::{select_hit, Hit, IntersectionPoint, Side};
use raycaster::rotation::{Position, Rotation, FULL_TURN, HALF_TURN, QUARTER_TURN};

fn hit_at(distance: i64) -> Hit {
    Hit { point: IntersectionPoint::new(0, 0, 0, 0), distance }
}

#[test]
fn bresenham_gentle_slope() {
    let pts = get_line((0, 0), (5, 2));
    assert_eq!(pts, vec![(0, 0), (1, 0), (2, 1), (3, 1), (4, 2)]);
}

#[test]
fn bresenham_steep_slope_swaps_axes() {
    let pts = get_line((0, 0), (2, 5));
    assert_eq!(pts, vec![(0, 0), (0, 1), (1, 2), (1, 3), (2, 4)]);
}

#[test]
fn bresenham_degenerate_line_is_empty() {
    let pts = get_line((3, 3), (3, 3));
    assert!(pts.is_empty());
}

#[test]
fn bresenham_walks_from_smaller_major_coordinate() {
    let forward = get_line((0, 0), (4, 1));
    let backward = get_line((4, 1), (0, 0));
    assert_eq!(forward, backward);
}

#[test]
fn raycast_finds_first_matching_cell() {
    let hit = raycast((0, 0), (6, 0), |p| p.0 >= 3);
    assert_eq!(hit, Some((3, 0)));
}

#[test]
fn raycast_reports_none_when_nothing_matches() {
    let hit = raycast((0, 0), (6, 0), |_| false);
    assert_eq!(hit, None);
}

#[test]
fn floor_division_rounds_toward_minus_infinity() {
    assert_eq!(floor_div(7, 2), 3);
    assert_eq!(floor_div(-7, 2), -4);
    assert_eq!(floor_rem(-7, 2), 1);
}

#[test]
fn integer_square_root_brackets() {
    assert_eq!(isqrt(0), 0);
    assert_eq!(isqrt(1), 1);
    assert_eq!(isqrt(15), 3);
    assert_eq!(isqrt(16), 4);
    assert_eq!(isqrt(u64::MAX as u128 * u64::MAX as u128), u64::MAX);
}

#[test]
fn rounding_to_multiple_half_rounds_up() {
    assert_eq!(round_to_multiple(10, 4), 12);
    assert_eq!(round_to_multiple(9, 4), 8);
    assert_eq!(round_to_multiple(0, 4), 0);
}

#[test]
fn texture_coordinate_is_fractional_part() {
    let ts = 12 * 65536;
    // 1.5 tiles in: the fraction is one half, scaled into a 64-texel row.
    assert_eq!(tile_frac_scaled(18 * 65536, ts, 64), 32);
    // Out of the left edge: fractions stay in range for negative inputs.
    let t = tile_frac_scaled(-3 * 65536, ts, 64);
    assert!(0 <= t && t < 64);
}

#[test]
fn texture_coordinate_tiles_seamlessly() {
    let ts = 12 * 65536;
    for k in -3i64..4 {
        let x = 5 * 65536 + k * ts;
        assert_eq!(tile_frac_scaled(x, ts, 64), tile_frac_scaled(5 * 65536, ts, 64));
    }
}

#[test]
fn rotation_normalizes_into_one_turn() {
    assert_eq!(Rotation::new(-90 * 65536).degrees(), 270 * 65536);
    assert_eq!(Rotation::new(FULL_TURN + 90 * 65536).degrees(), QUARTER_TURN);
    assert_eq!(Rotation::new(0).degrees(), 0);
}

#[test]
fn rotation_facing_predicates() {
    assert!(Rotation::new(HALF_TURN).is_straight_horizontal());
    assert!(Rotation::new(0).is_straight_horizontal());
    assert!(Rotation::new(QUARTER_TURN).is_straight_vertical());
    assert!(Rotation::new(200 * 65536).is_facing_up());
    assert!(!Rotation::new(10 * 65536).is_facing_up());
    assert!(Rotation::new(180 * 65536).is_facing_left());
    assert!(!Rotation::new(10 * 65536).is_facing_left());
}

#[test]
fn rotation_add_wraps() {
    let mut r = Rotation::new(350 * 65536);
    r.add(20 * 65536);
    assert_eq!(r.degrees(), 10 * 65536);
}

#[test]
fn selection_picks_strictly_closer_horizontal() {
    let r = select_hit(Some(hit_at(100)), Some(hit_at(200)));
    assert_eq!(r, Some((hit_at(100), Side::Horizontal)));
}

#[test]
fn selection_tie_goes_to_vertical() {
    let r = select_hit(Some(hit_at(150)), Some(hit_at(150)));
    assert_eq!(r, Some((hit_at(150), Side::Vertical)));
}

#[test]
fn selection_with_one_family_missing() {
    assert_eq!(select_hit(Some(hit_at(7)), None), Some((hit_at(7), Side::Horizontal)));
    assert_eq!(select_hit(None, Some(hit_at(9))), Some((hit_at(9), Side::Vertical)));
    assert_eq!(select_hit(None, None), None);
}

#[test]
fn selection_distance_is_minimum() {
    let r = select_hit(Some(hit_at(300)), Some(hit_at(120))).unwrap();
    assert_eq!(r.0.distance, 120);
    assert_eq!(r.1, Side::Vertical);
}

#[test]
fn position_holds_fixed_point_coordinates() {
    let p = Position::new(3 * 65536, -2 * 65536);
    assert_eq!(p.x, 3 * 65536);
    assert_eq!(p.y, -2 * 65536);
}
