//! The column projector and the floor/ceiling caster: for each screen
//! column, the closer of the two grid-family wall hits is projected to a
//! perspective-correct wall strip, and the remaining rows are filled by
//! inverse-perspective sampling of the floor and ceiling textures.

use vstd::prelude::*;
use vstd::arithmetic::div_mod::*;
use vstd::arithmetic::mul::*;
use crate::fixed::{fx_mul_unit, tdiv, tile_frac_scaled};
use crate::light::{intensity_of, light_intensity, HALF_LIMIT};
use crate::map::{dither_limit, dithered_light_distance, GridMap};
use crate::ray::{
    horizontal_probe, look_for_horizontal, look_for_vertical, select_hit, vertical_probe,
    ColumnRay, Side, COORD_LIMIT, TILE_FX_MIN,
};
use crate::rotation::{Position, HALF_TURN, QUARTER_TURN, THREE_QUARTER_TURN};
use crate::map::lemma_cell_index;
use crate::texture::{
    column_of, kept_outside_strip, lemma_kept_strip_extend, lemma_kept_strip_refl,
    lemma_kept_strip_untouched, lemma_pixel_coordinates, pixel_index,
    pixel_is, pixel_kept, shaded, shaded_mono, strip_tex_y, Texture, PLANE_LIMIT,
};

verus! {

/// Largest accepted observer-to-projection-plane distance, in fixed point.
pub const DTP_LIMIT: i64 = 0x1_0000_0000;

/// Projected wall strips are clamped to this many pixels: a wall close
/// enough to exceed it already fills the whole screen column.
pub const STRIP_LIMIT: i64 = 0x8000;

/// Floor and ceiling rows whose inverse-perspective distance exceeds this
/// bound are left undrawn: they lie beyond the world-coordinate budget.
pub const RANGE_LIMIT: i64 = 0x8_0000_0000_0000;

/// The renderer's fixed configuration: projection-plane size in pixels,
/// tile size and observer-to-plane distance in fixed point.
pub struct RenderConfig {
    pub plane_w: i64,
    pub plane_h: i64,
    pub tile_fx: i64,
    pub dtp_fx: i64,
}

impl RenderConfig {
    /// Accepted parameter ranges: the tile must stay below the lighting
    /// model's near band so the half-tile quantization step is valid.
    pub open spec fn wf(self) -> bool {
        &&& 0 < self.plane_w <= PLANE_LIMIT
        &&& 0 < self.plane_h <= PLANE_LIMIT
        &&& TILE_FX_MIN <= self.tile_fx <= 2 * HALF_LIMIT
        &&& 0 < self.dtp_fx <= DTP_LIMIT
    }
}

/// Perspective-correct projected wall height in pixels: the pinhole-camera
/// relation `tile_size * distance_to_plane / corrected_distance`, floored.
pub open spec fn projected_height_of(ts: int, dtp: int, corrected: int) -> int {
    (ts * dtp) / (65536 * corrected)
}

/// Computes the projected wall height for a corrected distance.
pub fn projected_height(ts_fx: i64, dtp_fx: i64, corrected: i64) -> (r: i64)
    requires
        TILE_FX_MIN <= ts_fx <= 0x1000_0000,
        0 < dtp_fx <= DTP_LIMIT,
        1 <= corrected,
    ensures
        r as int == projected_height_of(ts_fx as int, dtp_fx as int, corrected as int),
        0 <= r <= 0x1000_0000_0000,
{
    proof {
        let n = ts_fx as int * dtp_fx as int;
        assert(0 < n <= 0x1000_0000_0000_0000int) by (nonlinear_arith)
            requires
                n == ts_fx as int * dtp_fx as int,
                0 < ts_fx as int <= 0x1000_0000,
                0 < dtp_fx as int <= 0x1_0000_0000,
        ;
        lemma_div_pos_is_pos(n, 65536 * corrected as int);
        lemma_div_is_ordered_by_denominator(n, 65536, 65536 * corrected as int);
        lemma_div_is_ordered(n, 0x1000_0000_0000_0000, 65536);
    }
    let n: i128 = (ts_fx as i128) * (dtp_fx as i128);
    let den: i128 = 65536 * (corrected as i128);
    (n / den) as i64
}

/// Projected wall height is monotonically non-increasing as the corrected
/// distance increases, for a fixed tile size and plane distance.
pub proof fn lemma_projected_height_monotonic(ts: int, dtp: int, c1: int, c2: int)
    requires
        0 <= ts,
        0 <= dtp,
        1 <= c1 <= c2,
    ensures
        projected_height_of(ts, dtp, c1) >= projected_height_of(ts, dtp, c2),
{
    lemma_mul_nonnegative(ts, dtp);
    lemma_div_is_ordered_by_denominator(ts * dtp, 65536 * c1, 65536 * c2);
}

/// The inverse-distance shading term `1/corrected`, in fixed point.
pub fn inverse_distance(corrected: i64) -> (r: i64)
    requires
        1 <= corrected,
    ensures
        r as int == 0x1_0000_0000int / corrected as int,
        0 <= r <= 0x1_0000_0000,
{
    proof {
        lemma_div_pos_is_pos(0x1_0000_0000, corrected as int);
        crate::fixed::lemma_div_range(0x1_0000_0000, corrected as int);
        lemma_div_is_ordered_by_denominator(0x1_0000_0000, 1, corrected as int);
        lemma_div_basics(0x1_0000_0000);
    }
    0x1_0000_0000 / corrected
}

/// The row's offset from the screen midline: below it for the floor, above
/// it for the ceiling — the same formula, mirrored.
pub open spec fn row_offset(side: Side, row: int, mid: int) -> int {
    if side == Side::Floor {
        row - mid
    } else {
        mid - row
    }
}

/// Similar-triangles inverse perspective: the straight-ahead distance to
/// the world point a screen row sees is eye height (half a tile) over the
/// row offset, times the plane distance.
pub open spec fn row_straight_distance(half_tile: int, dtp: int, bh: int) -> int {
    (half_tile * dtp) / (bh * 65536)
}

/// The true distance along the ray: the straight distance divided by the
/// cosine of the ray's offset from the view direction, floored at one
/// fixed-point unit.
pub open spec fn row_ray_distance(straight: int, cos_rel: int) -> int {
    let raw = (straight * 65536) / cos_rel;
    if raw < 1 {
        1
    } else {
        raw
    }
}

/// Whether a screen row of this column produces a floor or ceiling sample:
/// the row lies strictly outside the midline, the ray is not degenerate,
/// and the inverse-perspective distance stays within the range budget.
pub open spec fn floor_row_visible(cfg: RenderConfig, ray: ColumnRay, side: Side, row: int) -> bool {
    let mid = cfg.plane_h as int / 2;
    let bh = row_offset(side, row, mid);
    &&& bh >= 1
    &&& ray.cos_rel >= 1
    &&& (row_straight_distance(cfg.tile_fx as int / 2, cfg.dtp_fx as int, bh) * 65536) / (
    ray.cos_rel as int) <= RANGE_LIMIT as int
}

/// The ray distance of a visible row.
pub open spec fn floor_row_dist(cfg: RenderConfig, ray: ColumnRay, side: Side, row: int) -> int {
    let mid = cfg.plane_h as int / 2;
    let bh = row_offset(side, row, mid);
    row_ray_distance(
        row_straight_distance(cfg.tile_fx as int / 2, cfg.dtp_fx as int, bh),
        ray.cos_rel as int,
    )
}

/// The world x coordinate a visible row samples: observer plus distance
/// times the ray direction.
pub open spec fn floor_world_x(cfg: RenderConfig, pos: Position, ray: ColumnRay, side: Side, row: int) -> int {
    pos.x + tdiv(floor_row_dist(cfg, ray, side, row) * ray.cos, 65536)
}

/// The world y coordinate a visible row samples.
pub open spec fn floor_world_y(cfg: RenderConfig, pos: Position, ray: ColumnRay, side: Side, row: int) -> int {
    pos.y + tdiv(floor_row_dist(cfg, ray, side, row) * ray.sin, 65536)
}

/// The texture coordinate of a world coordinate: the fractional part of
/// the tile position, scaled into the texture dimension.
pub open spec fn world_tex_coord(v: int, ts: int, tex_dim: int) -> int {
    ((v % ts) * tex_dim) / ts
}

/// The combined shading multiplier of a sample at world point `(ex, ey)`:
/// the inverse-distance term plus the light term of the cell's nearest
/// visible light at the dithered distance, or nothing when the cell has no
/// visible light. Only this multiplier, never the sampled point or texel,
/// depends on the dither.
pub open spec fn floor_sample_mult(
    m: GridMap,
    ts: int,
    ex: int,
    ey: int,
    dist: int,
    side: Side,
    dt: int,
) -> int {
    0x1_0000_0000int / dist + match m.light_lookup(ex / ts, ey / ts) {
        None => 0int,
        Some(l) => intensity_of(
            dithered_light_distance(ex, ey, ts, l.0 as int, l.1 as int, side, dt),
            ts / 2,
        ),
    }
}

/// A visible floor or ceiling row holds its sample: the texel of the
/// row's world point, shaded by distance and light for some dither in the
/// stated band. Only the shading multiplier depends on the dither; the
/// world point and the texel do not.
#[verifier::opaque]
pub open spec fn floor_row_lit(
    cfg: RenderConfig,
    m: GridMap,
    t: Texture,
    pos: Position,
    ray: ColumnRay,
    side: Side,
    x: int,
    row: int,
    post: Seq<u8>,
) -> bool {
    let w = cfg.plane_w as int;
    let ts = cfg.tile_fx as int;
    exists|dt: int|
        65536 <= dt < dither_limit(side) && pixel_is(
            post,
            w,
            x,
            row,
            shaded_mono(
                t.color_spec(
                    world_tex_coord(floor_world_x(cfg, pos, ray, side, row), ts, t.width as int),
                    world_tex_coord(floor_world_y(cfg, pos, ray, side, row), ts, t.height as int),
                ),
                #[trigger] floor_sample_mult(
                    m,
                    ts,
                    floor_world_x(cfg, pos, ray, side, row),
                    floor_world_y(cfg, pos, ray, side, row),
                    floor_row_dist(cfg, ray, side, row),
                    side,
                    dt,
                ),
            ),
        )
}

/// A concrete dither witness establishes a lit row.
pub proof fn lemma_floor_row_lit_intro(
    cfg: RenderConfig,
    m: GridMap,
    t: Texture,
    pos: Position,
    ray: ColumnRay,
    side: Side,
    x: int,
    row: int,
    post: Seq<u8>,
    dt: int,
)
    requires
        65536 <= dt < dither_limit(side),
        pixel_is(
            post,
            cfg.plane_w as int,
            x,
            row,
            shaded_mono(
                t.color_spec(
                    world_tex_coord(
                        floor_world_x(cfg, pos, ray, side, row),
                        cfg.tile_fx as int,
                        t.width as int,
                    ),
                    world_tex_coord(
                        floor_world_y(cfg, pos, ray, side, row),
                        cfg.tile_fx as int,
                        t.height as int,
                    ),
                ),
                floor_sample_mult(
                    m,
                    cfg.tile_fx as int,
                    floor_world_x(cfg, pos, ray, side, row),
                    floor_world_y(cfg, pos, ray, side, row),
                    floor_row_dist(cfg, ray, side, row),
                    side,
                    dt,
                ),
            ),
        ),
    ensures
        floor_row_lit(cfg, m, t, pos, ray, side, x, row, post),
{
    reveal(floor_row_lit);
}

/// A lit row stays lit while its four pixel bytes are unchanged.
pub proof fn lemma_floor_row_lit_preserved(
    cfg: RenderConfig,
    m: GridMap,
    t: Texture,
    pos: Position,
    ray: ColumnRay,
    side: Side,
    x: int,
    row: int,
    pre: Seq<u8>,
    post: Seq<u8>,
)
    requires
        floor_row_lit(cfg, m, t, pos, ray, side, x, row, pre),
        pixel_kept(pre, post, cfg.plane_w as int, x, row),
    ensures
        floor_row_lit(cfg, m, t, pos, ray, side, x, row, post),
{
    reveal(floor_row_lit);
}

/// What one screen row of the floor or ceiling caster does to the frame:
/// an on-screen row that passes the inverse-perspective guards holds its
/// shaded sample; a row that fails them is untouched.
pub open spec fn floor_row_drawn(
    cfg: RenderConfig,
    m: GridMap,
    t: Texture,
    pos: Position,
    ray: ColumnRay,
    side: Side,
    x: int,
    row: int,
    pre: Seq<u8>,
    post: Seq<u8>,
) -> bool {
    let w = cfg.plane_w as int;
    if !(0 <= x < w && 0 <= row < cfg.plane_h) {
        true
    } else if floor_row_visible(cfg, ray, side, row) {
        floor_row_lit(cfg, m, t, pos, ray, side, x, row, post)
    } else {
        pixel_kept(pre, post, w, x, row)
    }
}

/// Fills the rows of one screen column outside the wall strip by/// Fills the rows of one screen column outside the wall strip by
/// inverse-perspective sampling: each row in the range maps back to a
/// world point whose floor or ceiling texel is drawn with distance and
/// light shading, and no byte outside rows `[row_start, row_end)` of
/// screen column `x` changes.
#[verifier::loop_isolation(false)]
pub fn floorcast(
    cfg: &RenderConfig,
    x: i64,
    row_start: i64,
    row_end: i64,
    position: &Position,
    ray: &ColumnRay,
    pixels: &mut Vec<u8>,
    floor_texture: &Texture,
    side: Side,
    map: &GridMap,
    rng: &mut rand::rngs::SmallRng,
)
    requires
        cfg.wf(),
        map.wf(),
        floor_texture.wf(),
        ray.wf(),
        side == Side::Floor || side == Side::Ceiling,
        -COORD_LIMIT <= position.x <= COORD_LIMIT,
        -COORD_LIMIT <= position.y <= COORD_LIMIT,
        -0x2_0000 <= row_start <= 0x2_0000,
        -0x2_0000 <= row_end <= 0x2_0000,
        old(pixels)@.len() == 4 * (cfg.plane_w * cfg.plane_h),
    ensures
        final(pixels)@.len() == old(pixels)@.len(),
        kept_outside_strip(
            old(pixels)@,
            final(pixels)@,
            cfg.plane_w as int,
            x as int,
            row_start as int,
            row_end as int,
        ),
        forall|row: int|
            row_start <= row < row_end ==> #[trigger] floor_row_drawn(
                *cfg,
                *map,
                *floor_texture,
                *position,
                *ray,
                side,
                x as int,
                row,
                old(pixels)@,
                final(pixels)@,
            ),
{
    let mid = cfg.plane_h / 2;
    let half_tile = cfg.tile_fx / 2;
    let wi = cfg.plane_w;
    proof {
        assert(mid as int == cfg.plane_h as int / 2);
        assert(half_tile as int == cfg.tile_fx as int / 2);
    }
    let mut row = row_start;
    proof {
        lemma_kept_strip_refl(pixels@, wi as int, x as int, row_start as int, row as int);
    }
    while row < row_end
        invariant
            row_start <= row,
            row <= row_end || row == row_start,
            pixels@.len() == 4 * (cfg.plane_w * cfg.plane_h),
            kept_outside_strip(
                old(pixels)@,
                pixels@,
                wi as int,
                x as int,
                row_start as int,
                row as int,
            ),
            forall|r: int|
                row_start <= r < row ==> #[trigger] floor_row_drawn(
                    *cfg,
                    *map,
                    *floor_texture,
                    *position,
                    *ray,
                    side,
                    x as int,
                    r,
                    old(pixels)@,
                    pixels@,
                ),
        decreases row_end - row,
    {
        let ghost pre = pixels@;
        let bheight = if side == Side::Floor {
            row - mid
        } else {
            mid - row
        };
        let mut drew = false;
        let ghost mut drawn_dt: int = 0;
        if bheight >= 1 {
            proof {
                assert(0 <= half_tile as int * cfg.dtp_fx as int <= 0x1000_0000_0000_0000int)
                    by (nonlinear_arith)
                    requires
                        0 <= half_tile as int <= 0x1000_0000,
                        0 < cfg.dtp_fx as int <= 0x1_0000_0000,
                ;
            }
            let n: i128 = (half_tile as i128) * (cfg.dtp_fx as i128);
            let den: i128 = (bheight as i128) * 65536;
            proof {
                lemma_div_pos_is_pos(half_tile as int * cfg.dtp_fx as int, bheight as int * 65536);
                lemma_div_is_ordered_by_denominator(
                    half_tile as int * cfg.dtp_fx as int,
                    65536,
                    bheight as int * 65536,
                );
                lemma_div_is_ordered(
                    half_tile as int * cfg.dtp_fx as int,
                    0x1000_0000_0000_0000,
                    65536,
                );
            }
            let straight: i64 = (n / den) as i64;
            proof {
                assert(straight as int == row_straight_distance(
                    cfg.tile_fx as int / 2,
                    cfg.dtp_fx as int,
                    row_offset(side, row as int, cfg.plane_h as int / 2),
                ));
            }
            if ray.cos_rel >= 1 {
                let nd: i128 = (straight as i128) * 65536;
                let q2: i128 = nd / (ray.cos_rel as i128);
                proof {
                    lemma_div_pos_is_pos(straight as int * 65536, ray.cos_rel as int);
                    crate::fixed::lemma_div_range(straight as int * 65536, ray.cos_rel as int);
                }
                if q2 <= RANGE_LIMIT as i128 {
                    let raw: i64 = q2 as i64;
                    let dist = if raw < 1 {
                        1
                    } else {
                        raw
                    };
                    proof {
                        assert(floor_row_visible(*cfg, *ray, side, row as int));
                        assert(dist as int == floor_row_dist(*cfg, *ray, side, row as int));
                    }
                    let ex = position.x + fx_mul_unit(dist, ray.cos);
                    let ey = position.y + fx_mul_unit(dist, ray.sin);
                    proof {
                        assert(ex as int == floor_world_x(*cfg, *position, *ray, side, row as int));
                        assert(ey as int == floor_world_y(*cfg, *position, *ray, side, row as int));
                    }
                    let tex_x = tile_frac_scaled(ex, cfg.tile_fx, floor_texture.width());
                    let tex_y = tile_frac_scaled(ey, cfg.tile_fx, floor_texture.height());
                    let dtl = map.distance_to_light(ex, ey, rng, side, cfg.tile_fx);
                    let light_mult = light_intensity(dtl, half_tile);
                    let inv = inverse_distance(dist);
                    let mult = inv + light_mult;
                    proof {
                        let ts = cfg.tile_fx as int;
                        match dtl {
                            None => {
                                drawn_dt = 65536;
                                assert(mult as int == floor_sample_mult(
                                    *map,
                                    ts,
                                    ex as int,
                                    ey as int,
                                    dist as int,
                                    side,
                                    drawn_dt,
                                ));
                            },
                            Some(d) => {
                                drawn_dt = choose|dt: int|
                                    65536 <= dt < dither_limit(side) && d as int
                                        == #[trigger] dithered_light_distance(
                                        ex as int,
                                        ey as int,
                                        ts,
                                        self_light(map, ex as int, ey as int, ts).0 as int,
                                        self_light(map, ex as int, ey as int, ts).1 as int,
                                        side,
                                        dt,
                                    );
                                assert(mult as int == floor_sample_mult(
                                    *map,
                                    ts,
                                    ex as int,
                                    ey as int,
                                    dist as int,
                                    side,
                                    drawn_dt,
                                ));
                            },
                        }
                    }
                    floor_texture.copy_to_ex(
                        tex_x,
                        tex_y,
                        x,
                        row,
                        pixels,
                        Some((mult, mult, mult)),
                        wi,
                        cfg.plane_h,
                    );
                    proof {
                        let ts = cfg.tile_fx as int;
                        assert(tex_x as int == world_tex_coord(
                            floor_world_x(*cfg, *position, *ray, side, row as int),
                            ts,
                            floor_texture.width as int,
                        ));
                        assert(tex_y as int == world_tex_coord(
                            floor_world_y(*cfg, *position, *ray, side, row as int),
                            ts,
                            floor_texture.height as int,
                        ));
                        assert(0 <= x < wi && 0 <= row < cfg.plane_h ==> pixel_is(
                            pixels@,
                            wi as int,
                            x as int,
                            row as int,
                            shaded_mono(
                                floor_texture.color_spec(tex_x as int, tex_y as int),
                                mult as int,
                            ),
                        ));
                    }
                    drew = true;
                }
            }
        }
        proof {
            let xi = x as int;
            let ri = row as int;
            let wii = wi as int;
            if !drew {
                assert(pixels@ == pre);
                lemma_kept_strip_refl(pre, wii, xi, ri, ri + 1);
            }
            lemma_kept_strip_extend(
                old(pixels)@,
                pre,
                pixels@,
                wii,
                xi,
                row_start as int,
                ri,
            );
            assert forall|r: int| row_start <= r < row + 1 implies #[trigger] floor_row_drawn(
                *cfg,
                *map,
                *floor_texture,
                *position,
                *ray,
                side,
                xi,
                r,
                old(pixels)@,
                pixels@,
            ) by {
                if 0 <= xi < wii && 0 <= r < cfg.plane_h {
                    let base = pixel_index(wii, xi, r);
                    lemma_cell_index(wii, cfg.plane_h as int, xi, r);
                    lemma_pixel_coordinates(wii, xi, r, base);
                    lemma_pixel_coordinates(wii, xi, r, base + 1);
                    lemma_pixel_coordinates(wii, xi, r, base + 2);
                    lemma_pixel_coordinates(wii, xi, r, base + 3);
                    if r < ri {
                        assert(floor_row_drawn(
                            *cfg,
                            *map,
                            *floor_texture,
                            *position,
                            *ray,
                            side,
                            xi,
                            r,
                            old(pixels)@,
                            pre,
                        ));
                        lemma_kept_strip_untouched(pre, pixels@, wii, xi, ri, ri + 1, base);
                        lemma_kept_strip_untouched(pre, pixels@, wii, xi, ri, ri + 1, base + 1);
                        lemma_kept_strip_untouched(pre, pixels@, wii, xi, ri, ri + 1, base + 2);
                        lemma_kept_strip_untouched(pre, pixels@, wii, xi, ri, ri + 1, base + 3);
                        assert(pixel_kept(pre, pixels@, wii, xi, r));
                        if floor_row_visible(*cfg, *ray, side, r) {
                            lemma_floor_row_lit_preserved(
                                *cfg,
                                *map,
                                *floor_texture,
                                *position,
                                *ray,
                                side,
                                xi,
                                r,
                                pre,
                                pixels@,
                            );
                        }
                    } else {
                        if drew {
                            assert(floor_row_visible(*cfg, *ray, side, r));
                            lemma_floor_row_lit_intro(
                                *cfg,
                                *map,
                                *floor_texture,
                                *position,
                                *ray,
                                side,
                                xi,
                                r,
                                pixels@,
                                drawn_dt,
                            );
                        } else {
                            assert(!floor_row_visible(*cfg, *ray, side, r));
                            lemma_kept_strip_untouched(
                                old(pixels)@,
                                pre,
                                wii,
                                xi,
                                row_start as int,
                                ri,
                                base,
                            );
                            lemma_kept_strip_untouched(
                                old(pixels)@,
                                pre,
                                wii,
                                xi,
                                row_start as int,
                                ri,
                                base + 1,
                            );
                            lemma_kept_strip_untouched(
                                old(pixels)@,
                                pre,
                                wii,
                                xi,
                                row_start as int,
                                ri,
                                base + 2,
                            );
                            lemma_kept_strip_untouched(
                                old(pixels)@,
                                pre,
                                wii,
                                xi,
                                row_start as int,
                                ri,
                                base + 3,
                            );
                        }
                    }
                }
            }
        }
        row = row + 1;
    }
    proof {
        if row_start > row_end {
            crate::texture::lemma_kept_strip_empty(
                old(pixels)@,
                pixels@,
                wi as int,
                x as int,
                row_start as int,
                row_start as int,
                row_start as int,
                row_end as int,
            );
        }
    }
}

/// The light recorded for the cell of a world point, when there is one.
pub open spec fn self_light(m: &GridMap, ex: int, ey: int, ts: int) -> (i64, i64) {
    match m.light_lookup(ex / ts, ey / ts) {
        Some(l) => l,
        None => (0i64, 0i64),
    }
}

/// Both grid-line families of a column's ray report no wall: the ray is
/// parallel to the family's lines, its tangent entry is degenerate, or the
/// capped search found no blocking cell.
pub open spec fn column_misses(m: GridMap, ts: int, px: int, py: int, ray: ColumnRay) -> bool {
    &&& (ray.rot.angle() == 0 || ray.rot.angle() == HALF_TURN as int || ray.tan == 0
        || horizontal_probe(m, ts, px, py, ray.up(), ray.tan as int) is None)
    &&& (ray.rot.angle() == QUARTER_TURN as int || ray.rot.angle() == THREE_QUARTER_TURN as int
        || vertical_probe(m, ts, px, py, ray.left(), ray.tan as int) is None)
}

/// The fixed-point distance from the observer to a probe point.
pub open spec fn probe_dist(px: int, py: int, p: (int, int)) -> int {
    crate::fixed::sqrt_floor(crate::ray::fx_dist2(px, py, p.0, p.1) as nat) as int
}

/// What the horizontal family reports for a ray: no hit for a ray along
/// the x axis or with a degenerate tangent entry, otherwise its probe.
pub open spec fn h_result(m: GridMap, ts: int, px: int, py: int, ray: ColumnRay) -> Option<
    (int, int),
> {
    if ray.rot.angle() == 0 || ray.rot.angle() == HALF_TURN as int || ray.tan == 0 {
        None
    } else {
        horizontal_probe(m, ts, px, py, ray.up(), ray.tan as int)
    }
}

/// What the vertical family reports for a ray.
pub open spec fn v_result(m: GridMap, ts: int, px: int, py: int, ray: ColumnRay) -> Option<
    (int, int),
> {
    if ray.rot.angle() == QUARTER_TURN as int || ray.rot.angle() == THREE_QUARTER_TURN as int {
        None
    } else {
        vertical_probe(m, ts, px, py, ray.left(), ray.tan as int)
    }
}

/// The wall crossing a column uses: the closer of the two family results,
/// the vertical one on a tie or when the horizontal family found nothing.
pub open spec fn column_choice(m: GridMap, ts: int, px: int, py: int, ray: ColumnRay) -> Option<
    ((int, int), Side),
> {
    match (h_result(m, ts, px, py, ray), v_result(m, ts, px, py, ray)) {
        (None, None) => None,
        (Some(p), None) => Some((p, Side::Horizontal)),
        (None, Some(q)) => Some((q, Side::Vertical)),
        (Some(p), Some(q)) => if probe_dist(px, py, p) < probe_dist(px, py, q) {
            Some((p, Side::Horizontal))
        } else {
            Some((q, Side::Vertical))
        },
    }
}

/// The fisheye-corrected wall distance of a hit.
pub open spec fn corrected_of(px: int, py: int, p: (int, int), ray: ColumnRay) -> int {
    tdiv(probe_dist(px, py, p) * ray.cos_rel, 65536)
}

/// The projected wall strip of a hit, clamped: `(top, bottom)` rows.
pub open spec fn strip_of(cfg: RenderConfig, corrected: int) -> (int, int) {
    let ph0 = projected_height_of(cfg.tile_fx as int, cfg.dtp_fx as int, corrected);
    let ph = if ph0 > STRIP_LIMIT as int {
        STRIP_LIMIT as int
    } else {
        ph0
    };
    let mid = cfg.plane_h as int / 2;
    (mid - ph / 2, mid + ph / 2)
}

/// The shading multiplier of a wall sample at the hit point.
pub open spec fn wall_sample_mult(
    m: GridMap,
    ts: int,
    p: (int, int),
    side: Side,
    corrected: int,
    dt: int,
) -> int {
    0x1_0000_0000int / corrected + match m.light_lookup(p.0 / ts, p.1 / ts) {
        None => 0int,
        Some(l) => intensity_of(
            dithered_light_distance(p.0, p.1, ts, l.0 as int, l.1 as int, side, dt),
            ts / 2,
        ),
    }
}

/// A hit column holds its wall strip: for some dither in the stated band,
/// if the combined multiplier is positive, every on-screen strip row holds
/// the wall texel of the hit's tile fraction, scaled proportionally along
/// the strip and shaded by distance and light.
#[verifier::opaque]
pub open spec fn column_wall_drawn(
    cfg: RenderConfig,
    m: GridMap,
    t: Texture,
    ray: ColumnRay,
    x: int,
    p: (int, int),
    side: Side,
    corrected: int,
    post: Seq<u8>,
) -> bool {
    let w = cfg.plane_w as int;
    let ts = cfg.tile_fx as int;
    let (top, bottom) = strip_of(cfg, corrected);
    let wall_x = if side == Side::Horizontal {
        p.0
    } else {
        p.1
    };
    let tex_x = world_tex_coord(wall_x, ts, t.width as int);
    exists|dt: int|
        65536 <= dt < dither_limit(side) && (#[trigger] wall_sample_mult(
            m,
            ts,
            p,
            side,
            corrected,
            dt,
        ) > 0 ==> forall|y: int|
            0 <= y < bottom - top && 0 <= top + y < cfg.plane_h ==> pixel_is(
                post,
                w,
                x,
                top + y,
                shaded_mono(
                    t.color_spec(tex_x, #[trigger] strip_tex_y(y, bottom - top, t.height as int)),
                    wall_sample_mult(m, ts, p, side, corrected, dt),
                ),
            ))
}

/// A drawn wall strip survives the floor and ceiling casts, which write
/// only outside its rows.
pub proof fn lemma_column_wall_after_floors(
    cfg: RenderConfig,
    m: GridMap,
    t: Texture,
    ray: ColumnRay,
    x: int,
    p: (int, int),
    side: Side,
    corrected: int,
    s1: Seq<u8>,
    s2: Seq<u8>,
    s3: Seq<u8>,
)
    requires
        column_wall_drawn(cfg, m, t, ray, x, p, side, corrected, s1),
        0 <= x < cfg.plane_w,
        s1.len() == 4 * (cfg.plane_w * cfg.plane_h),
        kept_outside_strip(
            s1,
            s2,
            cfg.plane_w as int,
            x,
            strip_of(cfg, corrected).1,
            cfg.plane_h as int,
        ),
        kept_outside_strip(s2, s3, cfg.plane_w as int, x, 0, strip_of(cfg, corrected).0),
    ensures
        column_wall_drawn(cfg, m, t, ray, x, p, side, corrected, s3),
{
    reveal(column_wall_drawn);
    let w = cfg.plane_w as int;
    let ts = cfg.tile_fx as int;
    let (top, bottom) = strip_of(cfg, corrected);
    let wall_x = if side == Side::Horizontal {
        p.0
    } else {
        p.1
    };
    let tex_x = world_tex_coord(wall_x, ts, t.width as int);
    assert forall|y: int| 0 <= y < bottom - top && 0 <= top + y < cfg.plane_h implies #[trigger]
    pixel_kept(s1, s3, w, x, top + y) by {
        let base = pixel_index(w, x, top + y);
        lemma_cell_index(w, cfg.plane_h as int, x, top + y);
        lemma_pixel_coordinates(w, x, top + y, base);
        lemma_pixel_coordinates(w, x, top + y, base + 1);
        lemma_pixel_coordinates(w, x, top + y, base + 2);
        lemma_pixel_coordinates(w, x, top + y, base + 3);
        lemma_kept_strip_untouched(s1, s2, w, x, bottom, cfg.plane_h as int, base);
        lemma_kept_strip_untouched(s1, s2, w, x, bottom, cfg.plane_h as int, base + 1);
        lemma_kept_strip_untouched(s1, s2, w, x, bottom, cfg.plane_h as int, base + 2);
        lemma_kept_strip_untouched(s1, s2, w, x, bottom, cfg.plane_h as int, base + 3);
        lemma_kept_strip_untouched(s2, s3, w, x, 0, top, base);
        lemma_kept_strip_untouched(s2, s3, w, x, 0, top, base + 1);
        lemma_kept_strip_untouched(s2, s3, w, x, 0, top, base + 2);
        lemma_kept_strip_untouched(s2, s3, w, x, 0, top, base + 3);
    }
    let dt0 = choose|dt: int|
        65536 <= dt < dither_limit(side) && (#[trigger] wall_sample_mult(
            m,
            ts,
            p,
            side,
            corrected,
            dt,
        ) > 0 ==> forall|y: int|
            0 <= y < bottom - top && 0 <= top + y < cfg.plane_h ==> pixel_is(
                s1,
                w,
                x,
                top + y,
                shaded_mono(
                    t.color_spec(tex_x, #[trigger] strip_tex_y(y, bottom - top, t.height as int)),
                    wall_sample_mult(m, ts, p, side, corrected, dt),
                ),
            ));
    if wall_sample_mult(m, ts, p, side, corrected, dt0) > 0 {
        assert forall|y: int| 0 <= y < bottom - top && 0 <= top + y < cfg.plane_h implies pixel_is(
            s3,
            w,
            x,
            top + y,
            shaded_mono(
                t.color_spec(tex_x, #[trigger] strip_tex_y(y, bottom - top, t.height as int)),
                wall_sample_mult(m, ts, p, side, corrected, dt0),
            ),
        ) by {
            assert(pixel_is(
                s1,
                w,
                x,
                top + y,
                shaded_mono(
                    t.color_spec(tex_x, strip_tex_y(y, bottom - top, t.height as int)),
                    wall_sample_mult(m, ts, p, side, corrected, dt0),
                ),
            ));
            assert(pixel_kept(s1, s3, w, x, top + y));
        }
    }
    assert(65536 <= dt0 < dither_limit(side) && (wall_sample_mult(m, ts, p, side, corrected, dt0)
        > 0 ==> forall|y: int|
        0 <= y < bottom - top && 0 <= top + y < cfg.plane_h ==> pixel_is(
            s3,
            w,
            x,
            top + y,
            shaded_mono(
                t.color_spec(tex_x, #[trigger] strip_tex_y(y, bottom - top, t.height as int)),
                wall_sample_mult(m, ts, p, side, corrected, dt0),
            ),
        )));
}

/// A drawn wall strip survives drawing into any other column.
pub proof fn lemma_column_wall_kept(
    cfg: RenderConfig,
    m: GridMap,
    t: Texture,
    ray: ColumnRay,
    x: int,
    p: (int, int),
    side: Side,
    corrected: int,
    pre: Seq<u8>,
    post: Seq<u8>,
)
    requires
        column_wall_drawn(cfg, m, t, ray, x, p, side, corrected, pre),
        0 <= x < cfg.plane_w,
        pre.len() == 4 * (cfg.plane_w * cfg.plane_h),
        column_kept(pre, post, cfg.plane_w as int, x),
    ensures
        column_wall_drawn(cfg, m, t, ray, x, p, side, corrected, post),
{
    reveal(column_wall_drawn);
    reveal(column_kept);
    let w = cfg.plane_w as int;
    let ts = cfg.tile_fx as int;
    let (top, bottom) = strip_of(cfg, corrected);
    let wall_x = if side == Side::Horizontal {
        p.0
    } else {
        p.1
    };
    let tex_x = world_tex_coord(wall_x, ts, t.width as int);
    assert forall|y: int| 0 <= y < bottom - top && 0 <= top + y < cfg.plane_h implies #[trigger]
    pixel_kept(pre, post, w, x, top + y) by {
        let base = pixel_index(w, x, top + y);
        lemma_cell_index(w, cfg.plane_h as int, x, top + y);
        lemma_pixel_coordinates(w, x, top + y, base);
        lemma_pixel_coordinates(w, x, top + y, base + 1);
        lemma_pixel_coordinates(w, x, top + y, base + 2);
        lemma_pixel_coordinates(w, x, top + y, base + 3);
    }
    let dt0 = choose|dt: int|
        65536 <= dt < dither_limit(side) && (#[trigger] wall_sample_mult(
            m,
            ts,
            p,
            side,
            corrected,
            dt,
        ) > 0 ==> forall|y: int|
            0 <= y < bottom - top && 0 <= top + y < cfg.plane_h ==> pixel_is(
                pre,
                w,
                x,
                top + y,
                shaded_mono(
                    t.color_spec(tex_x, #[trigger] strip_tex_y(y, bottom - top, t.height as int)),
                    wall_sample_mult(m, ts, p, side, corrected, dt),
                ),
            ));
    if wall_sample_mult(m, ts, p, side, corrected, dt0) > 0 {
        assert forall|y: int| 0 <= y < bottom - top && 0 <= top + y < cfg.plane_h implies pixel_is(
            post,
            w,
            x,
            top + y,
            shaded_mono(
                t.color_spec(tex_x, #[trigger] strip_tex_y(y, bottom - top, t.height as int)),
                wall_sample_mult(m, ts, p, side, corrected, dt0),
            ),
        ) by {
            assert(pixel_is(
                pre,
                w,
                x,
                top + y,
                shaded_mono(
                    t.color_spec(tex_x, strip_tex_y(y, bottom - top, t.height as int)),
                    wall_sample_mult(m, ts, p, side, corrected, dt0),
                ),
            ));
            assert(pixel_kept(pre, post, w, x, top + y));
        }
    }
    assert(65536 <= dt0 < dither_limit(side) && (wall_sample_mult(m, ts, p, side, corrected, dt0)
        > 0 ==> forall|y: int|
        0 <= y < bottom - top && 0 <= top + y < cfg.plane_h ==> pixel_is(
            post,
            w,
            x,
            top + y,
            shaded_mono(
                t.color_spec(tex_x, #[trigger] strip_tex_y(y, bottom - top, t.height as int)),
                wall_sample_mult(m, ts, p, side, corrected, dt0),
            ),
        )));
}

/// Every frame byte of one column is the same in `post` as in `pre`.
#[verifier::opaque]
pub open spec fn column_kept(pre: Seq<u8>, post: Seq<u8>, w: int, k: int) -> bool {
    &&& post.len() == pre.len()
    &&& forall|i: int|
        0 <= i < pre.len() && #[trigger] column_of(w, i) == k ==> post[i] == pre[i]
}

/// Drawing into one column keeps every other column.
pub proof fn lemma_column_kept_of_draws(
    s0: Seq<u8>,
    s1: Seq<u8>,
    s2: Seq<u8>,
    s3: Seq<u8>,
    cfg: RenderConfig,
    x: int,
    k: int,
    wall_top: int,
    wall_bottom: int,
)
    requires
        k != x,
        s1 == s0 || kept_outside_strip(s0, s1, cfg.plane_w as int, x, wall_top, wall_bottom),
        kept_outside_strip(s1, s2, cfg.plane_w as int, x, wall_bottom, cfg.plane_h as int),
        kept_outside_strip(s2, s3, cfg.plane_w as int, x, 0, wall_top),
    ensures
        column_kept(s0, s3, cfg.plane_w as int, k),
{
    reveal(column_kept);
    reveal(kept_outside_strip);
}

/// An untouched frame keeps every column.
pub proof fn lemma_column_kept_refl(s: Seq<u8>, w: int, k: int)
    ensures
        column_kept(s, s, w, k),
{
    reveal(column_kept);
}

/// Every frame byte of a column at or beyond `upto`, and of any column
/// whose ray misses, is the same in `post` as in `pre`.
#[verifier::opaque]
pub open spec fn miss_columns_kept(
    pre: Seq<u8>,
    post: Seq<u8>,
    m: GridMap,
    cfg: RenderConfig,
    pos: Position,
    rays: Seq<ColumnRay>,
    upto: int,
) -> bool {
    &&& post.len() == pre.len()
    &&& forall|i: int|
        0 <= i < pre.len() && (#[trigger] column_of(cfg.plane_w as int, i) >= upto
            || column_misses(
            m,
            cfg.tile_fx as int,
            pos.x as int,
            pos.y as int,
            rays[column_of(cfg.plane_w as int, i)],
        )) ==> post[i] == pre[i]
}

/// An untouched frame keeps every column.
pub proof fn lemma_miss_columns_refl(
    s: Seq<u8>,
    m: GridMap,
    cfg: RenderConfig,
    pos: Position,
    rays: Seq<ColumnRay>,
    upto: int,
)
    ensures
        miss_columns_kept(s, s, m, cfg, pos, rays, upto),
{
    reveal(miss_columns_kept);
}

/// A column left untouched advances the bound by one.
pub proof fn lemma_miss_columns_skip(
    pre: Seq<u8>,
    post: Seq<u8>,
    m: GridMap,
    cfg: RenderConfig,
    pos: Position,
    rays: Seq<ColumnRay>,
    upto: int,
)
    requires
        miss_columns_kept(pre, post, m, cfg, pos, rays, upto),
    ensures
        miss_columns_kept(pre, post, m, cfg, pos, rays, upto + 1),
{
    reveal(miss_columns_kept);
}

/// Drawing into one column whose ray hits advances the bound by one: the
/// wall strip and the two floor casts touch only that column.
pub proof fn lemma_miss_columns_step(
    pre: Seq<u8>,
    s0: Seq<u8>,
    s1: Seq<u8>,
    s2: Seq<u8>,
    s3: Seq<u8>,
    m: GridMap,
    cfg: RenderConfig,
    pos: Position,
    rays: Seq<ColumnRay>,
    x: int,
    wall_top: int,
    wall_bottom: int,
)
    requires
        miss_columns_kept(pre, s0, m, cfg, pos, rays, x),
        !column_misses(m, cfg.tile_fx as int, pos.x as int, pos.y as int, rays[x]),
        s1 == s0 || kept_outside_strip(s0, s1, cfg.plane_w as int, x, wall_top, wall_bottom),
        kept_outside_strip(s1, s2, cfg.plane_w as int, x, wall_bottom, cfg.plane_h as int),
        kept_outside_strip(s2, s3, cfg.plane_w as int, x, 0, wall_top),
    ensures
        miss_columns_kept(pre, s3, m, cfg, pos, rays, x + 1),
{
    reveal(miss_columns_kept);
    reveal(kept_outside_strip);
    let w = cfg.plane_w as int;
    assert forall|i: int|
        0 <= i < pre.len() && (#[trigger] column_of(w, i) >= x + 1 || column_misses(
            m,
            cfg.tile_fx as int,
            pos.x as int,
            pos.y as int,
            rays[column_of(w, i)],
        )) implies s3[i] == pre[i] by {
        assert(column_of(w, i) != x);
        assert(s0[i] == pre[i]);
        assert(s1[i] == s0[i]);
        assert(s2[i] == s1[i]);
        assert(s3[i] == s2[i]);
    }
}

/// A byte of a missing column is unchanged once the whole frame is done.
pub proof fn lemma_miss_column_unchanged(
    pre: Seq<u8>,
    post: Seq<u8>,
    m: GridMap,
    cfg: RenderConfig,
    pos: Position,
    rays: Seq<ColumnRay>,
    i: int,
)
    requires
        miss_columns_kept(pre, post, m, cfg, pos, rays, cfg.plane_w as int),
        0 <= i < pre.len(),
        column_misses(
            m,
            cfg.tile_fx as int,
            pos.x as int,
            pos.y as int,
            rays[column_of(cfg.plane_w as int, i)],
        ),
    ensures
        post[i] == pre[i],
{
    reveal(miss_columns_kept);
}

/// Renders one frame: fires one ray per screen column, projects the closer
/// of the two grid-family wall hits into a shaded wall strip, and fills
/// the remaining rows with floor and ceiling samples. A column whose two
/// family searches both report no hit is left exactly as it was; the frame
/// always keeps its size, and a partially blank frame is a valid outcome.
#[verifier::loop_isolation(false)]
#[verifier::rlimit(100)]
pub fn raycast(
    cfg: &RenderConfig,
    position: &Position,
    rays: &Vec<ColumnRay>,
    pixels: &mut Vec<u8>,
    wall_texture: &Texture,
    floor_texture: &Texture,
    map: &GridMap,
    rng: &mut rand::rngs::SmallRng,
)
    requires
        cfg.wf(),
        map.wf(),
        wall_texture.wf(),
        floor_texture.wf(),
        -COORD_LIMIT <= position.x <= COORD_LIMIT,
        -COORD_LIMIT <= position.y <= COORD_LIMIT,
        rays@.len() == cfg.plane_w,
        forall|i: int| 0 <= i < rays@.len() ==> (#[trigger] rays@[i]).wf(),
        old(pixels)@.len() == 4 * (cfg.plane_w * cfg.plane_h),
    ensures
        final(pixels)@.len() == old(pixels)@.len(),
        forall|i: int|
            0 <= i < old(pixels)@.len() && #[trigger] column_misses(
                *map,
                cfg.tile_fx as int,
                position.x as int,
                position.y as int,
                rays@[column_of(cfg.plane_w as int, i)],
            ) ==> final(pixels)@[i] == old(pixels)@[i],
        forall|k: int|
            0 <= k < cfg.plane_w ==> match #[trigger] column_choice(
                *map,
                cfg.tile_fx as int,
                position.x as int,
                position.y as int,
                rays@[k],
            ) {
                None => true,
                Some((p, side)) => corrected_of(position.x as int, position.y as int, p, rays@[k])
                    >= 1 ==> column_wall_drawn(
                    *cfg,
                    *map,
                    *wall_texture,
                    rays@[k],
                    k,
                    p,
                    side,
                    corrected_of(position.x as int, position.y as int, p, rays@[k]),
                    final(pixels)@,
                ),
            },
{
    let w = cfg.plane_w;
    let mut x: i64 = 0;
    proof {
        lemma_miss_columns_refl(pixels@, *map, *cfg, *position, rays@, 0);
    }
    while x < w
        invariant
            0 <= x <= w,
            pixels@.len() == 4 * (cfg.plane_w * cfg.plane_h),
            miss_columns_kept(old(pixels)@, pixels@, *map, *cfg, *position, rays@, x as int),
            forall|k: int|
                0 <= k < x ==> match #[trigger] column_choice(
                    *map,
                    cfg.tile_fx as int,
                    position.x as int,
                    position.y as int,
                    rays@[k],
                ) {
                    None => true,
                    Some((p, side)) => corrected_of(
                        position.x as int,
                        position.y as int,
                        p,
                        rays@[k],
                    ) >= 1 ==> column_wall_drawn(
                        *cfg,
                        *map,
                        *wall_texture,
                        rays@[k],
                        k,
                        p,
                        side,
                        corrected_of(position.x as int, position.y as int, p, rays@[k]),
                        pixels@,
                    ),
                },
        decreases w - x,
    {
        let ray = &rays[x as usize];
        let ghost s0 = pixels@;
        let horizontal = look_for_horizontal(ray, position, map, cfg.tile_fx);
        let vertical = look_for_vertical(ray, position, map, cfg.tile_fx);
        let mut wall_top: i64 = 0;
        let mut wall_bottom: i64 = 0;
        let mut drew_column = false;
        match select_hit(horizontal, vertical) {
            None => {
                proof {
                    assert(column_misses(
                        *map,
                        cfg.tile_fx as int,
                        position.x as int,
                        position.y as int,
                        rays@[x as int],
                    ));
                }
            },
            Some((hit, side)) => {
                let ghost mi = *map;
                let ghost tsi = cfg.tile_fx as int;
                let ghost pxi = position.x as int;
                let ghost pyi = position.y as int;
                let ghost rr = rays@[x as int];
                let ghost cp = (hit.point.x as int, hit.point.y as int);
                proof {
                    assert(!column_misses(mi, tsi, pxi, pyi, rr));
                    match horizontal {
                        None => {
                            assert(h_result(mi, tsi, pxi, pyi, rr) is None);
                        },
                        Some(hh) => {
                            assert(h_result(mi, tsi, pxi, pyi, rr) == Some(
                                (hh.point.x as int, hh.point.y as int),
                            ));
                            assert(probe_dist(pxi, pyi, (hh.point.x as int, hh.point.y as int))
                                == hh.distance as int);
                        },
                    }
                    match vertical {
                        None => {
                            assert(v_result(mi, tsi, pxi, pyi, rr) is None);
                        },
                        Some(vv) => {
                            assert(v_result(mi, tsi, pxi, pyi, rr) == Some(
                                (vv.point.x as int, vv.point.y as int),
                            ));
                            assert(probe_dist(pxi, pyi, (vv.point.x as int, vv.point.y as int))
                                == vv.distance as int);
                        },
                    }
                    assert(column_choice(mi, tsi, pxi, pyi, rr) == Some((cp, side)));
                }
                let corrected = fx_mul_unit(hit.distance, ray.cos_rel);
                proof {
                    assert(corrected as int == corrected_of(pxi, pyi, cp, rr));
                }
                if corrected >= 1 {
                    let ph = projected_height(cfg.tile_fx, cfg.dtp_fx, corrected);
                    let ph = if ph > STRIP_LIMIT {
                        STRIP_LIMIT
                    } else {
                        ph
                    };
                    let mid = cfg.plane_h / 2;
                    wall_bottom = mid + ph / 2;
                    wall_top = mid - ph / 2;
                    proof {
                        assert(strip_of(*cfg, corrected as int) == (
                            wall_top as int,
                            wall_bottom as int,
                        ));
                    }
                    let wall_x = if side == Side::Horizontal {
                        hit.point.x
                    } else {
                        hit.point.y
                    };
                    let tex_x = tile_frac_scaled(wall_x, cfg.tile_fx, wall_texture.width());
                    proof {
                        assert(tex_x as int == world_tex_coord(
                            if side == Side::Horizontal {
                                cp.0
                            } else {
                                cp.1
                            },
                            tsi,
                            wall_texture.width as int,
                        ));
                    }
                    let dtl = map.distance_to_light(
                        hit.point.x,
                        hit.point.y,
                        rng,
                        side,
                        cfg.tile_fx,
                    );
                    let light_mult = light_intensity(dtl, cfg.tile_fx / 2);
                    let inv = inverse_distance(corrected);
                    let mult = inv + light_mult;
                    let ghost mut dtw: int = 0;
                    proof {
                        match dtl {
                            None => {
                                dtw = 65536;
                            },
                            Some(d) => {
                                dtw = choose|dt: int|
                                    65536 <= dt < dither_limit(side) && d as int
                                        == #[trigger] dithered_light_distance(
                                        cp.0,
                                        cp.1,
                                        tsi,
                                        self_light(map, cp.0, cp.1, tsi).0 as int,
                                        self_light(map, cp.0, cp.1, tsi).1 as int,
                                        side,
                                        dt,
                                    );
                            },
                        }
                        assert(mult as int == wall_sample_mult(
                            mi,
                            tsi,
                            cp,
                            side,
                            corrected as int,
                            dtw,
                        ));
                    }
                    if mult > 0 {
                        wall_texture.draw_strip_at_ex(
                            x,
                            tex_x,
                            wall_top,
                            wall_bottom,
                            pixels,
                            Some((mult, mult, mult)),
                            w,
                            cfg.plane_h,
                        );
                    }
                    let ghost s1 = pixels@;
                    proof {
                        let wii = w as int;
                        let top = wall_top as int;
                        let bottom = wall_bottom as int;
                        if mult > 0 {
                            assert forall|y: int|
                                0 <= y < bottom - top && 0 <= top + y < cfg.plane_h implies
                                pixel_is(
                                s1,
                                wii,
                                x as int,
                                top + y,
                                shaded_mono(
                                    wall_texture.color_spec(
                                        tex_x as int,
                                        #[trigger] strip_tex_y(
                                            y,
                                            bottom - top,
                                            wall_texture.height as int,
                                        ),
                                    ),
                                    mult as int,
                                ),
                            ) by {
                                assert(pixel_is(
                                    s1,
                                    wii,
                                    x as int,
                                    top + y,
                                    shaded(
                                        wall_texture.color_spec(
                                            tex_x as int,
                                            strip_tex_y(y, bottom - top, wall_texture.height as int),
                                        ),
                                        Some((mult, mult, mult)),
                                    ),
                                ));
                            }
                        }
                        assert(column_wall_drawn(
                            *cfg,
                            mi,
                            *wall_texture,
                            rr,
                            x as int,
                            cp,
                            side,
                            corrected as int,
                            s1,
                        )) by {
                            reveal(column_wall_drawn);
                        }
                    }
                    floorcast(
                        cfg,
                        x,
                        wall_bottom,
                        cfg.plane_h,
                        position,
                        ray,
                        pixels,
                        floor_texture,
                        Side::Floor,
                        map,
                        rng,
                    );
                    let ghost s2 = pixels@;
                    floorcast(
                        cfg,
                        x,
                        0,
                        wall_top,
                        position,
                        ray,
                        pixels,
                        floor_texture,
                        Side::Ceiling,
                        map,
                        rng,
                    );
                    drew_column = true;
                    proof {
                        lemma_miss_columns_step(
                            old(pixels)@,
                            s0,
                            s1,
                            s2,
                            pixels@,
                            *map,
                            *cfg,
                            *position,
                            rays@,
                            x as int,
                            wall_top as int,
                            wall_bottom as int,
                        );
                        lemma_column_wall_after_floors(
                            *cfg,
                            mi,
                            *wall_texture,
                            rr,
                            x as int,
                            cp,
                            side,
                            corrected as int,
                            s1,
                            s2,
                            pixels@,
                        );
                        assert forall|k: int| 0 <= k < x + 1 implies match #[trigger] column_choice(
                            *map,
                            cfg.tile_fx as int,
                            position.x as int,
                            position.y as int,
                            rays@[k],
                        ) {
                            None => true,
                            Some((p, side2)) => corrected_of(
                                position.x as int,
                                position.y as int,
                                p,
                                rays@[k],
                            ) >= 1 ==> column_wall_drawn(
                                *cfg,
                                *map,
                                *wall_texture,
                                rays@[k],
                                k,
                                p,
                                side2,
                                corrected_of(position.x as int, position.y as int, p, rays@[k]),
                                pixels@,
                            ),
                        } by {
                            if k < x {
                                match column_choice(
                                    *map,
                                    cfg.tile_fx as int,
                                    position.x as int,
                                    position.y as int,
                                    rays@[k],
                                ) {
                                    None => {},
                                    Some((p, side2)) => {
                                        let c2 = corrected_of(
                                            position.x as int,
                                            position.y as int,
                                            p,
                                            rays@[k],
                                        );
                                        if c2 >= 1 {
                                            lemma_column_kept_of_draws(
                                                s0,
                                                s1,
                                                s2,
                                                pixels@,
                                                *cfg,
                                                x as int,
                                                k,
                                                wall_top as int,
                                                wall_bottom as int,
                                            );
                                            lemma_column_wall_kept(
                                                *cfg,
                                                *map,
                                                *wall_texture,
                                                rays@[k],
                                                k,
                                                p,
                                                side2,
                                                c2,
                                                s0,
                                                pixels@,
                                            );
                                        }
                                    },
                                }
                            }
                        }
                    }
                }
            },
        }
        proof {
            if !drew_column {
                assert(pixels@ == s0);
                lemma_miss_columns_skip(
                    old(pixels)@,
                    pixels@,
                    *map,
                    *cfg,
                    *position,
                    rays@,
                    x as int,
                );
                assert forall|k: int| 0 <= k < x + 1 implies match #[trigger] column_choice(
                    *map,
                    cfg.tile_fx as int,
                    position.x as int,
                    position.y as int,
                    rays@[k],
                ) {
                    None => true,
                    Some((p, side2)) => corrected_of(
                        position.x as int,
                        position.y as int,
                        p,
                        rays@[k],
                    ) >= 1 ==> column_wall_drawn(
                        *cfg,
                        *map,
                        *wall_texture,
                        rays@[k],
                        k,
                        p,
                        side2,
                        corrected_of(position.x as int, position.y as int, p, rays@[k]),
                        pixels@,
                    ),
                } by {
                    if k < x {
                        match column_choice(
                            *map,
                            cfg.tile_fx as int,
                            position.x as int,
                            position.y as int,
                            rays@[k],
                        ) {
                            None => {},
                            Some((p, side2)) => {
                                let c2 = corrected_of(
                                    position.x as int,
                                    position.y as int,
                                    p,
                                    rays@[k],
                                );
                                if c2 >= 1 {
                                    lemma_column_kept_refl(pixels@, w as int, k);
                                    lemma_column_wall_kept(
                                        *cfg,
                                        *map,
                                        *wall_texture,
                                        rays@[k],
                                        k,
                                        p,
                                        side2,
                                        c2,
                                        pixels@,
                                        pixels@,
                                    );
                                }
                            },
                        }
                    }
                }
            }
        }
        x = x + 1;
    }
    proof {
        assert forall|i: int|
            0 <= i < old(pixels)@.len() && #[trigger] column_misses(
                *map,
                cfg.tile_fx as int,
                position.x as int,
                position.y as int,
                rays@[column_of(cfg.plane_w as int, i)],
            ) implies pixels@[i] == old(pixels)@[i] by {
            lemma_miss_column_unchanged(
                old(pixels)@,
                pixels@,
                *map,
                *cfg,
                *position,
                rays@,
                i,
            );
        }
    }
}

} // verus!
