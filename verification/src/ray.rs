//! The ray stepper: a digital-differential-analyzer search for the first
//! blocking cell along a ray, run separately over the family of horizontal
//! grid lines and the family of vertical grid lines, and the tie-break that
//! picks the closer of the two hits.

use vstd::prelude::*;
use vstd::arithmetic::mul::*;
use crate::fixed::{floor_div, fx_div_small, fx_mul_small, isqrt, sqrt_floor, tdiv, FX_ONE};
use crate::map::GridMap;
use crate::rotation::{Position, Rotation, FULL_TURN, HALF_TURN, QUARTER_TURN, THREE_QUARTER_TURN};

verus! {

/// How many grid-line crossings a ray may test before it gives up: an
/// unbounded grid with no boundary wall must not loop forever.
pub const STEP_LIMIT: u32 = 251;

/// Observer coordinates stay within this fixed-point bound.
pub const COORD_LIMIT: i64 = 0x100_0000_0000;

/// Smallest accepted tile size, in fixed point: one world unit.
pub const TILE_FX_MIN: i64 = 65536;

/// Largest accepted tile size, in fixed point.
pub const TILE_FX_MAX: i64 = 0x1000_0000;

/// Largest accepted tangent magnitude, in fixed point.
pub const TAN_LIMIT: i64 = 0x1_0000_0000;

/// Bound on the coordinates of a ray's first grid-line crossing.
pub const START_LIMIT: i64 = 0x2000_0000_0000;

/// Bound on the fixed-point advance per grid-line step.
pub const DELTA_LIMIT: i64 = 0x1000_0000_0000;

/// Bound on any coordinate the stepper can reach within the iteration cap.
pub const REACH_LIMIT: i64 = 0x20_0000_0000_0000;

/// Which surface a sample belongs to: a wall hit on the horizontal or the
/// vertical grid-line family, or a floor or ceiling sample.
#[derive(Clone, Copy, Debug, PartialEq, Eq, Structural)]
pub enum Side {
    Horizontal,
    Vertical,
    Floor,
    Ceiling,
}

/// The point where a ray crosses a grid line, with the grid-offset
/// correction that names the cell the crossing must be tested against: a
/// ray moving in the negative direction tests the cell behind the line.
#[derive(Clone, Copy, Debug, PartialEq, Eq, Structural)]
pub struct IntersectionPoint {
    pub x: i64,
    pub y: i64,
    pub mod_x: i64,
    pub mod_y: i64,
}

impl IntersectionPoint {
    pub fn new(x: i64, y: i64, mod_x: i64, mod_y: i64) -> (r: IntersectionPoint)
        ensures
            r == (IntersectionPoint { x, y, mod_x, mod_y }),
    {
        IntersectionPoint { x, y, mod_x, mod_y }
    }

    /// The grid cell this crossing is tested against.
    pub open spec fn cell_x(self, ts: int) -> int {
        self.x as int / ts + self.mod_x
    }

    /// The grid cell this crossing is tested against.
    pub open spec fn cell_y(self, ts: int) -> int {
        self.y as int / ts + self.mod_y
    }

    /// Converts the crossing to the grid cell it belongs to, for a tile
    /// size of `ts_fx` fixed-point units.
    pub fn as_grid_pair(&self, ts_fx: i64) -> (r: (i64, i64))
        requires
            TILE_FX_MIN <= ts_fx <= TILE_FX_MAX,
            -REACH_LIMIT <= self.x <= REACH_LIMIT,
            -REACH_LIMIT <= self.y <= REACH_LIMIT,
            -1 <= self.mod_x <= 1,
            -1 <= self.mod_y <= 1,
        ensures
            r.0 as int == self.cell_x(ts_fx as int),
            r.1 as int == self.cell_y(ts_fx as int),
    {
        proof {
            crate::fixed::lemma_div_range(self.x as int, ts_fx as int);
            crate::fixed::lemma_div_range(self.y as int, ts_fx as int);
        }
        (floor_div(self.x, ts_fx) + self.mod_x, floor_div(self.y, ts_fx) + self.mod_y)
    }
}

/// A wall hit: the crossing point and the fixed-point Euclidean distance
/// from the observer to it.
#[derive(Clone, Copy, Debug, PartialEq, Eq, Structural)]
pub struct Hit {
    pub point: IntersectionPoint,
    pub distance: i64,
}

/// Squared fixed-point distance between two points.
pub open spec fn fx_dist2(ax: int, ay: int, bx: int, by: int) -> int {
    (ax - bx) * (ax - bx) + (ay - by) * (ay - by)
}

/// The point where the ray from `(x, y)` advancing by `(dx, dy)` per
/// grid-line step first meets a blocking cell, or `None` if it tests `fuel`
/// further crossings without finding one.
pub open spec fn first_hit(
    m: GridMap,
    x: int,
    y: int,
    dx: int,
    dy: int,
    modx: int,
    mody: int,
    ts: int,
    fuel: nat,
) -> Option<(int, int)>
    decreases fuel,
{
    if m.blocking(x / ts + modx, y / ts + mody) {
        Some((x, y))
    } else if fuel == 0 {
        None
    } else {
        first_hit(m, x + dx, y + dy, dx, dy, modx, mody, ts, (fuel - 1) as nat)
    }
}

/// In a grid with no blocking cell at all, every ray search exhausts its
/// iteration cap and reports no hit: the cap, not a wall, ends the walk.
pub proof fn lemma_open_grid_finds_no_hit(
    m: GridMap,
    x: int,
    y: int,
    dx: int,
    dy: int,
    modx: int,
    mody: int,
    ts: int,
    fuel: nat,
)
    requires
        forall|cx: int, cy: int| !#[trigger] m.blocking(cx, cy),
    ensures
        first_hit(m, x, y, dx, dy, modx, mody, ts, fuel) is None,
    decreases fuel,
{
    if !m.blocking(x / ts + modx, y / ts + mody) && fuel > 0 {
        lemma_open_grid_finds_no_hit(m, x + dx, y + dy, dx, dy, modx, mody, ts, (fuel - 1) as nat);
    }
}

/// Repeatedly advances a grid-line crossing by the fixed per-step delta
/// until a blocking cell is found or the iteration cap is reached, and
/// reports the Euclidean distance from the observer to the hit.
#[verifier::loop_isolation(false)]
pub fn step_ray(
    position: &Position,
    intersection: &IntersectionPoint,
    dx: i64,
    dy: i64,
    map: &GridMap,
    ts_fx: i64,
) -> (r: Option<Hit>)
    requires
        map.wf_dims(),
        TILE_FX_MIN <= ts_fx <= TILE_FX_MAX,
        -COORD_LIMIT <= position.x <= COORD_LIMIT,
        -COORD_LIMIT <= position.y <= COORD_LIMIT,
        -START_LIMIT <= intersection.x <= START_LIMIT,
        -START_LIMIT <= intersection.y <= START_LIMIT,
        -1 <= intersection.mod_x <= 1,
        -1 <= intersection.mod_y <= 1,
        -DELTA_LIMIT <= dx <= DELTA_LIMIT,
        -DELTA_LIMIT <= dy <= DELTA_LIMIT,
    ensures
        match r {
            None => first_hit(
                *map,
                intersection.x as int,
                intersection.y as int,
                dx as int,
                dy as int,
                intersection.mod_x as int,
                intersection.mod_y as int,
                ts_fx as int,
                STEP_LIMIT as nat,
            ) is None,
            Some(h) => {
                &&& first_hit(
                    *map,
                    intersection.x as int,
                    intersection.y as int,
                    dx as int,
                    dy as int,
                    intersection.mod_x as int,
                    intersection.mod_y as int,
                    ts_fx as int,
                    STEP_LIMIT as nat,
                ) == Some((h.point.x as int, h.point.y as int))
                &&& map.blocking(h.point.cell_x(ts_fx as int), h.point.cell_y(ts_fx as int))
                &&& h.point.mod_x == intersection.mod_x
                &&& h.point.mod_y == intersection.mod_y
                &&& -REACH_LIMIT <= h.point.x <= REACH_LIMIT
                &&& -REACH_LIMIT <= h.point.y <= REACH_LIMIT
                &&& h.distance as int == sqrt_floor(
                    fx_dist2(
                        position.x as int,
                        position.y as int,
                        h.point.x as int,
                        h.point.y as int,
                    ) as nat,
                )
                &&& 0 <= h.distance < 0x100_0000_0000_0000
            },
        },
{
    let mut px: i64 = intersection.x;
    let mut py: i64 = intersection.y;
    let mx: i64 = intersection.mod_x;
    let my: i64 = intersection.mod_y;
    let mut k: u32 = 0;
    let ghost m0 = *map;
    while k <= STEP_LIMIT
        invariant
            0 <= k <= STEP_LIMIT + 1,
            px as int == intersection.x as int + k as int * dx as int,
            py as int == intersection.y as int + k as int * dy as int,
            -REACH_LIMIT <= px <= REACH_LIMIT,
            -REACH_LIMIT <= py <= REACH_LIMIT,
            k <= STEP_LIMIT ==> first_hit(
                m0,
                intersection.x as int,
                intersection.y as int,
                dx as int,
                dy as int,
                mx as int,
                my as int,
                ts_fx as int,
                STEP_LIMIT as nat,
            ) == first_hit(
                m0,
                px as int,
                py as int,
                dx as int,
                dy as int,
                mx as int,
                my as int,
                ts_fx as int,
                (STEP_LIMIT - k) as nat,
            ),
            k == STEP_LIMIT + 1 ==> first_hit(
                m0,
                intersection.x as int,
                intersection.y as int,
                dx as int,
                dy as int,
                mx as int,
                my as int,
                ts_fx as int,
                STEP_LIMIT as nat,
            ) is None,
        decreases STEP_LIMIT + 1 - k,
    {
        let here = IntersectionPoint { x: px, y: py, mod_x: mx, mod_y: my };
        let cell = here.as_grid_pair(ts_fx);
        if map.is_blocking_at(cell) {
            let ddx: i64 = px - position.x;
            let ddy: i64 = py - position.y;
            proof {
                let gx = position.x as int;
                let gy = position.y as int;
                let hx = px as int;
                let hy = py as int;
                let dxi = ddx as int;
                let dyi = ddy as int;
                let sq = dxi * dxi + dyi * dyi;
                assert(fx_dist2(gx, gy, hx, hy) == (gx - hx) * (gx - hx) + (gy - hy) * (gy - hy));
                assert(sq == (gx - hx) * (gx - hx) + (gy - hy) * (gy - hy) && 0 <= sq && sq
                    < 0x1_0000_0000_0000_0000_0000_0000_0000int && 0 <= dxi * dxi && dxi * dxi
                    < 0x1_0000_0000_0000_0000_0000_0000_0000int && 0 <= dyi * dyi && dyi * dyi
                    < 0x1_0000_0000_0000_0000_0000_0000_0000int) by (nonlinear_arith)
                    requires
                        sq == dxi * dxi + dyi * dyi,
                        dxi == hx - gx,
                        dyi == hy - gy,
                        -0x40_0000_0000_0000 <= dxi <= 0x40_0000_0000_0000,
                        -0x40_0000_0000_0000 <= dyi <= 0x40_0000_0000_0000,
                ;
            }
            let d2: u128 = (ddx as i128 * ddx as i128 + ddy as i128 * ddy as i128) as u128;
            let dist: u64 = isqrt(d2);
            proof {
                assert(dist as int * dist as int <= d2 as int);
                assert((d2 as int) < 0x1_0000_0000_0000_0000_0000_0000_0000int);
                assert((dist as int) < 0x100_0000_0000_0000int) by (nonlinear_arith)
                    requires
                        0 <= dist as int,
                        (dist as int) * (dist as int) < 0x1_0000_0000_0000_0000_0000_0000_0000int,
                ;
            }
            return Some(Hit { point: here, distance: dist as i64 });
        }
        proof {
            let ki = k as int;
            lemma_mul_is_distributive_add_other_way(dx as int, ki, 1);
            lemma_mul_is_distributive_add_other_way(dy as int, ki, 1);
            lemma_mul_basics(dx as int);
            lemma_mul_basics(dy as int);
            assert(ki * dx as int <= 252 * DELTA_LIMIT as int && ki * dx as int >= -(252
                * DELTA_LIMIT as int)) by (nonlinear_arith)
                requires
                    0 <= ki <= 252,
                    -DELTA_LIMIT as int <= dx as int <= DELTA_LIMIT as int,
            ;
            assert(ki * dy as int <= 252 * DELTA_LIMIT as int && ki * dy as int >= -(252
                * DELTA_LIMIT as int)) by (nonlinear_arith)
                requires
                    0 <= ki <= 252,
                    -DELTA_LIMIT as int <= dy as int <= DELTA_LIMIT as int,
            ;
        }
        px = px + dx;
        py = py + dy;
        k = k + 1;
    }
    None
}

/// One screen column's ray: its absolute heading, the trigonometric values
/// of that heading supplied by the caller as fixed-point tables, and the
/// cosine of the angle between the ray and the observer's view direction
/// (for fisheye correction).
#[derive(Clone, Copy, Debug, PartialEq, Eq, Structural)]
pub struct ColumnRay {
    pub rot: Rotation,
    pub sin: i64,
    pub cos: i64,
    pub tan: i64,
    pub cos_rel: i64,
}

impl ColumnRay {
    /// Sane trigonometry: sine and cosine within one, tangent within the
    /// accepted cap, fisheye cosine within `(0, 1]` range or zero.
    pub open spec fn wf(self) -> bool {
        &&& self.rot.wf()
        &&& -FX_ONE <= self.sin <= FX_ONE
        &&& -FX_ONE <= self.cos <= FX_ONE
        &&& -TAN_LIMIT <= self.tan <= TAN_LIMIT
        &&& 0 <= self.cos_rel <= FX_ONE
    }

    /// The ray points into the upper half of the grid.
    pub open spec fn up(self) -> bool {
        HALF_TURN <= self.rot.angle() < FULL_TURN
    }

    /// The ray points into the left half of the grid.
    pub open spec fn left(self) -> bool {
        QUARTER_TURN <= self.rot.angle() < THREE_QUARTER_TURN
    }
}

/// The first horizontal grid line the ray crosses: the cell boundary below
/// the observer, or the one above when the ray faces up.
pub open spec fn h_first_y(py: int, ts: int, up: bool) -> int {
    (py / ts) * ts + if up {
        0int
    } else {
        ts
    }
}

/// A ray facing up tests the cell above the crossed line.
pub open spec fn h_mod_y(up: bool) -> int {
    if up {
        -1int
    } else {
        0int
    }
}

/// Where the first horizontal-line crossing lies along x.
pub open spec fn h_first_x(px: int, py: int, fy: int, tan: int) -> int {
    px + tdiv((py - fy) * FX_ONE as int, -tan)
}

/// Per-step advance along y for the horizontal family: one tile, signed.
pub open spec fn h_dy(ts: int, up: bool) -> int {
    if up {
        -ts
    } else {
        ts
    }
}

/// Per-step advance along x for the horizontal family.
pub open spec fn h_dx(ts: int, tan: int, up: bool) -> int {
    tdiv(h_dy(ts, up) * FX_ONE as int, tan)
}

/// The hit the horizontal-family search reports, as a point.
pub open spec fn horizontal_probe(m: GridMap, ts: int, px: int, py: int, up: bool, tan: int)
    -> Option<(int, int)> {
    let fy = h_first_y(py, ts, up);
    first_hit(
        m,
        h_first_x(px, py, fy, tan),
        fy,
        h_dx(ts, tan, up),
        h_dy(ts, up),
        0,
        h_mod_y(up),
        ts,
        STEP_LIMIT as nat,
    )
}

/// The first vertical grid line the ray crosses.
pub open spec fn v_first_x(px: int, ts: int, left: bool) -> int {
    (px / ts) * ts + if left {
        0int
    } else {
        ts
    }
}

/// A ray facing left tests the cell to the left of the crossed line.
pub open spec fn v_mod_x(left: bool) -> int {
    if left {
        -1int
    } else {
        0int
    }
}

/// Where the first vertical-line crossing lies along y.
pub open spec fn v_first_y(px: int, py: int, fx0: int, tan: int) -> int {
    py + tdiv((px - fx0) * (-tan), FX_ONE as int)
}

/// Per-step advance along x for the vertical family: one tile, signed.
pub open spec fn v_dx(ts: int, left: bool) -> int {
    if left {
        -ts
    } else {
        ts
    }
}

/// Per-step advance along y for the vertical family.
pub open spec fn v_dy(ts: int, tan: int, left: bool) -> int {
    tdiv(v_dx(ts, left) * tan, FX_ONE as int)
}

/// The hit the vertical-family search reports, as a point.
pub open spec fn vertical_probe(m: GridMap, ts: int, px: int, py: int, left: bool, tan: int)
    -> Option<(int, int)> {
    let fx0 = v_first_x(px, ts, left);
    first_hit(
        m,
        fx0,
        v_first_y(px, py, fx0, tan),
        v_dx(ts, left),
        v_dy(ts, tan, left),
        v_mod_x(left),
        0,
        ts,
        STEP_LIMIT as nat,
    )
}

/// How a family search result relates to its probe: `None` reports that the
/// probe found nothing within the cap; a hit carries the probe's point, a
/// genuinely blocking cell, and the exact rounded Euclidean distance from
/// the observer.
pub open spec fn probe_result_ok(
    m: GridMap,
    posx: int,
    posy: int,
    ts: int,
    probe: Option<(int, int)>,
    r: Option<Hit>,
    modx: int,
    mody: int,
) -> bool {
    match r {
        None => probe is None,
        Some(h) => {
            &&& probe == Some((h.point.x as int, h.point.y as int))
            &&& m.blocking(h.point.cell_x(ts), h.point.cell_y(ts))
            &&& h.point.mod_x == modx
            &&& h.point.mod_y == mody
            &&& -REACH_LIMIT <= h.point.x <= REACH_LIMIT
            &&& -REACH_LIMIT <= h.point.y <= REACH_LIMIT
            &&& h.distance as int == sqrt_floor(
                fx_dist2(posx, posy, h.point.x as int, h.point.y as int) as nat,
            )
            &&& 0 <= h.distance < 0x100_0000_0000_0000
        },
    }
}

/// Searches for the nearest wall crossing on the family of horizontal grid
/// lines. A ray running exactly along the x axis, or one whose tangent
/// table entry is zero, never crosses a horizontal line: the family reports
/// no hit instead of dividing by zero.
pub fn look_for_horizontal(ray: &ColumnRay, position: &Position, map: &GridMap, ts_fx: i64) -> (r:
    Option<Hit>)
    requires
        ray.wf(),
        map.wf_dims(),
        TILE_FX_MIN <= ts_fx <= TILE_FX_MAX,
        -COORD_LIMIT <= position.x <= COORD_LIMIT,
        -COORD_LIMIT <= position.y <= COORD_LIMIT,
    ensures
        (ray.rot.angle() == 0 || ray.rot.angle() == HALF_TURN as int || ray.tan == 0) ==> r
            is None,
        !(ray.rot.angle() == 0 || ray.rot.angle() == HALF_TURN as int || ray.tan == 0)
            ==> probe_result_ok(
            *map,
            position.x as int,
            position.y as int,
            ts_fx as int,
            horizontal_probe(
                *map,
                ts_fx as int,
                position.x as int,
                position.y as int,
                ray.up(),
                ray.tan as int,
            ),
            r,
            0,
            h_mod_y(ray.up()),
        ),
{
    if ray.rot.is_straight_horizontal() || ray.tan == 0 {
        return None;
    }
    let up = ray.rot.is_facing_up();
    proof {
        vstd::arithmetic::div_mod::lemma_fundamental_div_mod(position.y as int, ts_fx as int);
        vstd::arithmetic::div_mod::lemma_mod_bound(position.y as int, ts_fx as int);
        lemma_mul_is_commutative(ts_fx as int, position.y as int / ts_fx as int);
    }
    let base: i64 = floor_div(position.y, ts_fx) * ts_fx;
    let first_y: i64 = if up { base } else { base + ts_fx };
    let mod_y: i64 = if up { -1 } else { 0 };
    let diff: i64 = position.y - first_y;
    let off: i64 = fx_div_small(diff, -ray.tan);
    let first_x: i64 = position.x + off;
    let dy: i64 = if up { -ts_fx } else { ts_fx };
    let dx: i64 = fx_div_small(dy, ray.tan);
    let inter = IntersectionPoint { x: first_x, y: first_y, mod_x: 0, mod_y };
    let r = step_ray(position, &inter, dx, dy, map, ts_fx);
    proof {
        assert(first_y as int == h_first_y(position.y as int, ts_fx as int, up));
        assert(first_x as int == h_first_x(
            position.x as int,
            position.y as int,
            first_y as int,
            ray.tan as int,
        ));
        assert(dy as int == h_dy(ts_fx as int, up));
        assert(dx as int == h_dx(ts_fx as int, ray.tan as int, up));
    }
    r
}

/// Searches for the nearest wall crossing on the family of vertical grid
/// lines. A ray running exactly along the y axis never crosses a vertical
/// line: the family reports no hit.
pub fn look_for_vertical(ray: &ColumnRay, position: &Position, map: &GridMap, ts_fx: i64) -> (r:
    Option<Hit>)
    requires
        ray.wf(),
        map.wf_dims(),
        TILE_FX_MIN <= ts_fx <= TILE_FX_MAX,
        -COORD_LIMIT <= position.x <= COORD_LIMIT,
        -COORD_LIMIT <= position.y <= COORD_LIMIT,
    ensures
        (ray.rot.angle() == QUARTER_TURN as int || ray.rot.angle() == THREE_QUARTER_TURN as int)
            ==> r is None,
        !(ray.rot.angle() == QUARTER_TURN as int || ray.rot.angle() == THREE_QUARTER_TURN as int)
            ==> probe_result_ok(
            *map,
            position.x as int,
            position.y as int,
            ts_fx as int,
            vertical_probe(
                *map,
                ts_fx as int,
                position.x as int,
                position.y as int,
                ray.left(),
                ray.tan as int,
            ),
            r,
            v_mod_x(ray.left()),
            0,
        ),
{
    if ray.rot.is_straight_vertical() {
        return None;
    }
    let left = ray.rot.is_facing_left();
    proof {
        vstd::arithmetic::div_mod::lemma_fundamental_div_mod(position.x as int, ts_fx as int);
        vstd::arithmetic::div_mod::lemma_mod_bound(position.x as int, ts_fx as int);
        lemma_mul_is_commutative(ts_fx as int, position.x as int / ts_fx as int);
    }
    let base: i64 = floor_div(position.x, ts_fx) * ts_fx;
    let first_x: i64 = if left { base } else { base + ts_fx };
    let mod_x: i64 = if left { -1 } else { 0 };
    let diff: i64 = position.x - first_x;
    let off: i64 = fx_mul_small(diff, -ray.tan);
    let first_y: i64 = position.y + off;
    let dx: i64 = if left { -ts_fx } else { ts_fx };
    let dy: i64 = fx_mul_small(dx, ray.tan);
    let inter = IntersectionPoint { x: first_x, y: first_y, mod_x, mod_y: 0 };
    let r = step_ray(position, &inter, dx, dy, map, ts_fx);
    proof {
        assert(first_x as int == v_first_x(position.x as int, ts_fx as int, left));
        assert(first_y as int == v_first_y(
            position.x as int,
            position.y as int,
            first_x as int,
            ray.tan as int,
        ));
        assert(dx as int == v_dx(ts_fx as int, left));
        assert(dy as int == v_dy(ts_fx as int, ray.tan as int, left));
    }
    r
}

/// Resolves the two family results for one column: the shorter reported
/// distance wins; on an exact tie, and whenever the horizontal family found
/// nothing, the vertical hit is taken. Exactly one of no hit, horizontal
/// hit, or vertical hit is selected.
pub fn select_hit(h: Option<Hit>, v: Option<Hit>) -> (r: Option<(Hit, Side)>)
    ensures
        (r is None) <==> (h is None && v is None),
        match (h, v) {
            (None, None) => r is None,
            (Some(hh), None) => r == Some((hh, Side::Horizontal)),
            (None, Some(vv)) => r == Some((vv, Side::Vertical)),
            (Some(hh), Some(vv)) => r == (
                if hh.distance < vv.distance {
                    Some((hh, Side::Horizontal))
                } else {
                    Some((vv, Side::Vertical))
                }
            ),
        },
        match r {
            None => true,
            Some((hit, side)) => {
                &&& (side == Side::Horizontal || side == Side::Vertical)
                &&& match h {
                    None => side == Side::Vertical,
                    Some(hh) => hit.distance <= hh.distance,
                }
                &&& match v {
                    None => side == Side::Horizontal,
                    Some(vv) => hit.distance <= vv.distance,
                }
            },
        },
{
    match (h, v) {
        (None, None) => None,
        (Some(hh), None) => Some((hh, Side::Horizontal)),
        (None, Some(vv)) => Some((vv, Side::Vertical)),
        (Some(hh), Some(vv)) => {
            if hh.distance < vv.distance {
                Some((hh, Side::Horizontal))
            } else {
                Some((vv, Side::Vertical))
            }
        },
    }
}

} // verus!
