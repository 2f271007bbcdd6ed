//! The static tile grid: blocking and light-source markers, and the baked
//! table of the nearest light source visible from each cell.

use vstd::prelude::*;
use vstd::arithmetic::div_mod::*;
use vstd::arithmetic::mul::*;
use crate::line::{get_line, line_cells, CELL_LIMIT};
use crate::ray::{fx_dist2, Side};
use crate::fixed::{floor_div, isqrt, sqrt_floor};

verus! {

/// Tile marker for a blocking wall cell.
pub const WALL: u8 = 35;

/// Tile marker for an open cell.
pub const OPEN: u8 = 46;

/// Tile marker for a light-source cell.
pub const LIGHT: u8 = 108;

/// Largest accepted grid side length.
pub const SIDE_LIMIT: i64 = 0x8000;

/// Squared Euclidean distance between two cells.
pub open spec fn dist2(a: (i64, i64), b: (i64, i64)) -> int {
    (a.0 - b.0) * (a.0 - b.0) + (a.1 - b.1) * (a.1 - b.1)
}

/// The light-source cells among the first `n` tiles, in row-major scan
/// order, as `(column, row)` pairs.
pub open spec fn lights_prefix(tiles: Seq<u8>, w: int, n: int) -> Seq<(i64, i64)>
    decreases n,
{
    if n <= 0 {
        Seq::empty()
    } else {
        let rest = lights_prefix(tiles, w, n - 1);
        if tiles[n - 1] == LIGHT {
            rest.push(((((n - 1) % w) as i64), (((n - 1) / w) as i64)))
        } else {
            rest
        }
    }
}

/// A square cell index within `[0, w) x [0, h)` addresses a tile inside the
/// row-major array.
pub proof fn lemma_cell_index(w: int, h: int, x: int, y: int)
    requires
        0 < w,
        0 < h,
        0 <= x < w,
        0 <= y < h,
    ensures
        0 <= y * w + x < w * h,
{
    lemma_mul_nonnegative(y, w);
    lemma_mul_inequality(y, h - 1, w);
    assert((h - 1) * w + x < w * h) by (nonlinear_arith)
        requires
            0 <= x < w,
            0 < h,
    ;
}

/// Grid sides within `SIDE_LIMIT` keep every cell index well inside the
/// machine range.
pub proof fn lemma_grid_bounds(w: int, h: int)
    requires
        0 < w <= SIDE_LIMIT as int,
        0 < h <= SIDE_LIMIT as int,
    ensures
        0 < w * h <= 0x4000_0000,
{
    assert(0 < w * h <= 0x4000_0000) by (nonlinear_arith)
        requires
            0 < w <= 0x8000,
            0 < h <= 0x8000,
    ;
}

/// Every light the row-major scan finds lies inside the grid.
pub proof fn lemma_lights_prefix_range(tiles: Seq<u8>, w: int, h: int, n: int)
    requires
        0 < w <= SIDE_LIMIT as int,
        0 < h <= SIDE_LIMIT as int,
        n <= w * h,
    ensures
        forall|j: int|
            0 <= j < lights_prefix(tiles, w, n).len() ==> 0 <= (#[trigger] lights_prefix(
                tiles,
                w,
                n,
            )[j]).0 < w && 0 <= lights_prefix(tiles, w, n)[j].1 < h,
    decreases n,
{
    if n > 0 {
        lemma_lights_prefix_range(tiles, w, h, n - 1);
        let pre = lights_prefix(tiles, w, n - 1);
        let cur = lights_prefix(tiles, w, n);
        if tiles[n - 1] == LIGHT {
            lemma_mod_bound(n - 1, w);
            lemma_div_pos_is_pos(n - 1, w);
            lemma_mul_is_commutative(w, h);
            lemma_multiply_divide_lt(n - 1, w, h);
            let e = ((((n - 1) % w) as i64), (((n - 1) / w) as i64));
            assert(cur == pre.push(e));
            assert forall|j: int| 0 <= j < cur.len() implies 0 <= (#[trigger] cur[j]).0 < w && 0
                <= cur[j].1 < h by {
                if j < pre.len() {
                    assert(cur[j] == pre[j]);
                } else {
                    assert(cur[j] == e);
                }
            }
        } else {
            assert(cur == pre);
        }
    }
}

/// The static grid of tiles with its baked lighting table.
pub struct GridMap {
    pub tiles: Vec<u8>,
    pub width: i64,
    pub height: i64,
    pub lights: Vec<(i64, i64)>,
    pub light_data: Vec<Option<(i64, i64)>>,
}

const W: u8 = WALL;

const O: u8 = OPEN;

const L: u8 = LIGHT;

impl Default for GridMap {
    /// The built-in world: an eighteen-by-eighteen grid of walls and open
    /// floor with one light source, baked on construction.
    fn default() -> (m: GridMap)
        ensures
            m.wf(),
            m.width == 18,
            m.height == 18,
    {
        let rows: [[u8; 18]; 18] = [
            [W, W, W, W, W, W, W, W, W, W, W, W, W, W, W, W, W, W],
            [W, O, O, O, O, O, O, O, O, O, O, O, O, O, W, W, W, W],
            [W, O, O, O, O, O, O, O, O, O, O, O, O, O, O, W, W, W],
            [W, O, O, O, O, O, O, O, O, O, O, O, O, O, W, W, W, W],
            [W, O, O, O, O, O, O, O, O, O, O, O, O, O, W, W, W, W],
            [W, O, O, O, O, O, O, O, O, O, O, O, O, O, W, W, W, W],
            [W, O, O, O, O, O, O, O, O, O, O, O, O, O, O, W, W, W],
            [W, O, O, O, O, O, O, O, O, O, O, O, O, O, O, W, W, W],
            [W, O, O, O, O, O, O, O, O, O, O, O, O, O, O, W, W, W],
            [W, O, O, O, O, O, O, O, O, W, O, O, O, O, O, W, W, W],
            [W, O, O, O, O, O, O, O, O, W, O, O, O, O, O, W, W, W],
            [W, O, O, O, W, W, W, W, W, W, O, O, O, O, O, W, W, W],
            [W, O, O, O, W, L, O, O, O, O, O, O, O, O, O, W, W, W],
            [W, O, O, O, W, O, O, O, O, O, W, O, O, O, O, W, W, W],
            [W, O, O, O, W, O, O, O, O, O, W, O, O, O, O, W, W, W],
            [W, O, O, O, W, W, W, W, O, O, W, O, O, O, O, W, W, W],
            [W, O, O, O, O, O, O, O, O, O, W, O, O, O, O, W, W, W],
            [W, W, W, W, W, W, W, W, W, W, W, W, W, W, W, W, W, W],
        ];
        let mut tiles: Vec<u8> = Vec::new();
        let mut r: usize = 0;
        while r < 18
            invariant
                0 <= r <= 18,
                tiles@.len() == 18 * r,
            decreases 18 - r,
        {
            tiles.extend_from_slice(rows[r].as_slice());
            r = r + 1;
        }
        GridMap::new(tiles, 18, 18)
    }
}

/// A cell of a `w` by `h` grid blocks rays exactly when it is in range and
/// marked as a wall; every out-of-range cell is treated as open.
pub open spec fn grid_blocking(tiles: Seq<u8>, w: int, h: int, x: int, y: int) -> bool {
    0 <= x < w && 0 <= y < h && tiles[y * w + x] == WALL
}

/// Straight-line visibility: no cell on the discrete line from `from` to
/// the light `l` blocks.
#[verifier::opaque]
pub open spec fn grid_sees(tiles: Seq<u8>, w: int, h: int, from: (i64, i64), l: (i64, i64)) -> bool {
    forall|i: int|
        0 <= i < line_cells(from, l).len() ==> !grid_blocking(
            tiles,
            w,
            h,
            (#[trigger] line_cells(from, l)[i]).0 as int,
            line_cells(from, l)[i].1 as int,
        )
}

/// `l` is the light recorded for `from`: it is visible, it is nearest by
/// Euclidean distance among the visible lights, and among equally near ones
/// it is the first in scan order (its scan index is `i`).
pub open spec fn grid_witness(
    tiles: Seq<u8>,
    w: int,
    h: int,
    lights: Seq<(i64, i64)>,
    from: (i64, i64),
    l: (i64, i64),
    i: int,
) -> bool {
    &&& 0 <= i < lights.len()
    &&& lights[i] == l
    &&& grid_sees(tiles, w, h, from, l)
    &&& forall|j: int|
        0 <= j < i ==> !grid_sees(tiles, w, h, from, #[trigger] lights[j]) || dist2(
            from,
            lights[j],
        ) > dist2(from, l)
    &&& forall|j: int|
        0 <= j < lights.len() && grid_sees(tiles, w, h, from, #[trigger] lights[j]) ==> dist2(
            from,
            l,
        ) <= dist2(from, lights[j])
}

/// `l`, at scan index `i`, is the best pick among the first `j` scanned
/// lights: visible, nearest among the visible ones, first on ties.
pub open spec fn grid_best_in_prefix(
    tiles: Seq<u8>,
    w: int,
    h: int,
    lights: Seq<(i64, i64)>,
    from: (i64, i64),
    l: (i64, i64),
    i: int,
    j: int,
) -> bool {
    &&& 0 <= i < j <= lights.len()
    &&& lights[i] == l
    &&& grid_sees(tiles, w, h, from, l)
    &&& forall|k: int|
        0 <= k < i ==> !grid_sees(tiles, w, h, from, #[trigger] lights[k]) || dist2(
            from,
            lights[k],
        ) > dist2(from, l)
    &&& forall|k: int|
        0 <= k < j && grid_sees(tiles, w, h, from, #[trigger] lights[k]) ==> dist2(from, l)
            <= dist2(from, lights[k])
}

/// No listed light is visible from `from`.
#[verifier::opaque]
pub open spec fn grid_dark(
    tiles: Seq<u8>,
    w: int,
    h: int,
    lights: Seq<(i64, i64)>,
    from: (i64, i64),
) -> bool {
    forall|j: int| 0 <= j < lights.len() ==> !grid_sees(tiles, w, h, from, #[trigger] lights[j])
}

/// Some listed light is recorded correctly for `from`.
#[verifier::opaque]
pub open spec fn grid_lit(
    tiles: Seq<u8>,
    w: int,
    h: int,
    lights: Seq<(i64, i64)>,
    from: (i64, i64),
    l: (i64, i64),
) -> bool {
    exists|i: int| #[trigger] grid_witness(tiles, w, h, lights, from, l, i)
}

/// What a baked light-table entry for `from` means: `None` when no light is
/// visible, otherwise the nearest visible light, scan order breaking ties.
pub open spec fn grid_nearest_ok(
    tiles: Seq<u8>,
    w: int,
    h: int,
    lights: Seq<(i64, i64)>,
    from: (i64, i64),
    r: Option<(i64, i64)>,
) -> bool {
    match r {
        None => grid_dark(tiles, w, h, lights, from),
        Some(l) => grid_lit(tiles, w, h, lights, from, l),
    }
}

impl GridMap {
    /// Structural consistency: the declared size matches the tile count.
    pub open spec fn wf_dims(self) -> bool {
        &&& 0 < self.width <= SIDE_LIMIT
        &&& 0 < self.height <= SIDE_LIMIT
        &&& self.tiles@.len() == self.width * self.height
    }

    /// True when the cell lies inside the grid.
    pub open spec fn in_range(self, x: int, y: int) -> bool {
        0 <= x < self.width && 0 <= y < self.height
    }

    /// A cell blocks rays exactly when it is in range and marked as a wall.
    pub open spec fn blocking(self, x: int, y: int) -> bool {
        grid_blocking(self.tiles@, self.width as int, self.height as int, x, y)
    }

    /// `blocking`, taking the cell as one pair.
    pub open spec fn blocking_cell(self, p: (i64, i64)) -> bool {
        self.blocking(p.0 as int, p.1 as int)
    }

    /// Straight-line visibility on this grid.
    pub open spec fn sees_light(self, from: (i64, i64), l: (i64, i64)) -> bool {
        grid_sees(self.tiles@, self.width as int, self.height as int, from, l)
    }

    /// The recorded light `l` is correct for `from`, witnessed at index `i`.
    pub open spec fn nearest_witness(self, from: (i64, i64), l: (i64, i64), i: int) -> bool {
        grid_witness(
            self.tiles@,
            self.width as int,
            self.height as int,
            self.lights@,
            from,
            l,
            i,
        )
    }

    /// What a baked light-table entry for `from` means.
    pub open spec fn nearest_light_ok(self, from: (i64, i64), r: Option<(i64, i64)>) -> bool {
        grid_nearest_ok(
            self.tiles@,
            self.width as int,
            self.height as int,
            self.lights@,
            from,
            r,
        )
    }

    /// Full well-formedness: consistent dimensions, the light list is the
    /// row-major scan of the tiles, and every table entry records the
    /// nearest visible light of its cell.
    pub open spec fn wf(self) -> bool {
        &&& self.wf_dims()
        &&& self.lights@ == lights_prefix(self.tiles@, self.width as int, self.tiles@.len() as int)
        &&& self.light_data@.len() == self.width * self.height
        &&& forall|x: int, y: int|
            self.in_range(x, y) ==> self.nearest_light_ok(
                (x as i64, y as i64),
                #[trigger] self.light_data@[y * self.width + x],
            )
    }

    /// Builds the map and bakes its light table once. The tile count must
    /// match the declared dimensions; an inconsistent configuration is
    /// rejected before this constructor is reached.
    pub fn new(tiles: Vec<u8>, width: i64, height: i64) -> (m: GridMap)
        requires
            0 < width <= SIDE_LIMIT,
            0 < height <= SIDE_LIMIT,
            tiles@.len() == width * height,
        ensures
            m.wf(),
            m.tiles@ == tiles@,
            m.width == width,
            m.height == height,
    {
        let mut m = GridMap { tiles, width, height, lights: Vec::new(), light_data: Vec::new() };
        m.bake_lights();
        m
    }

    /// Scans the grid for light sources and records, for every cell, the
    /// nearest one with unobstructed straight-line visibility.
    #[verifier::loop_isolation(false)]
    pub fn bake_lights(&mut self)
        requires
            old(self).wf_dims(),
        ensures
            final(self).wf(),
            final(self).tiles@ == old(self).tiles@,
            final(self).width == old(self).width,
            final(self).height == old(self).height,
    {
        let w = self.width;
        let h = self.height;
        let n = self.tiles.len();
        proof {
            lemma_grid_bounds(w as int, h as int);
        }

        let mut lights: Vec<(i64, i64)> = Vec::new();
        let mut i: usize = 0;
        while i < n
            invariant
                0 <= i <= n,
                lights@ == lights_prefix(self.tiles@, w as int, i as int),
            decreases n - i,
        {
            if self.tiles[i] == LIGHT {
                let li = i as i64;
                proof {
                    lemma_mod_bound(li as int, w as int);
                    lemma_div_pos_is_pos(li as int, w as int);
                    lemma_multiply_divide_lt(li as int, w as int, h as int);
                    lemma_mul_is_commutative(w as int, h as int);
                }
                lights.push((li % w, li / w));
            }
            i = i + 1;
        }
        self.lights = lights;
        proof {
            lemma_lights_prefix_range(self.tiles@, w as int, h as int, n as int);
        }

        let mut data: Vec<Option<(i64, i64)>> = Vec::new();
        let mut y: i64 = 0;
        while y < h
            invariant
                0 <= y <= h,
                data@.len() == y * w,
                forall|cx: int, cy: int|
                    0 <= cx < w && 0 <= cy < y ==> self.nearest_light_ok(
                        (cx as i64, cy as i64),
                        #[trigger] data@[cy * w + cx],
                    ),
            decreases h - y,
        {
            let mut x: i64 = 0;
            proof {
                lemma_mul_nonnegative(y as int, w as int);
                lemma_mul_inequality(y as int, h as int, w as int);
            }
            while x < w
                invariant
                    0 <= y < h,
                    0 <= x <= w,
                    data@.len() == y * w + x,
                    forall|cx: int, cy: int|
                        0 <= cx < w && 0 <= cy < y ==> self.nearest_light_ok(
                            (cx as i64, cy as i64),
                            #[trigger] data@[cy * w + cx],
                        ),
                    forall|cx: int|
                        0 <= cx < x ==> self.nearest_light_ok(
                            (cx as i64, y as i64),
                            #[trigger] data@[y * w + cx],
                        ),
                decreases w - x,
            {
                let entry = self.prepare_light_data(x, y);
                let ghost pre = data@;
                data.push(entry);
                proof {
                    lemma_cell_index(w as int, h as int, x as int, y as int);
                    assert(data@[y * w + x] == entry);
                    assert forall|cx: int, cy: int| 0 <= cx < w && 0 <= cy < y implies self
                        .nearest_light_ok(
                        (cx as i64, cy as i64),
                        #[trigger] data@[cy * w + cx],
                    ) by {
                        lemma_mul_inequality(cy, y as int - 1, w as int);
                        lemma_mul_is_distributive_sub_other_way(w as int, y as int, 1);
                        lemma_mul_basics(w as int);
                        assert(cy * (w as int) + cx < y * (w as int));
                        assert(data@[cy * w + cx] == pre[cy * w + cx]);
                    }
                }
                x = x + 1;
            }
            proof {
                lemma_mul_is_distributive_add_other_way(w as int, y as int, 1);
                lemma_mul_basics(w as int);
                assert forall|cx: int, cy: int| 0 <= cx < w && 0 <= cy < y + 1 implies self
                    .nearest_light_ok((cx as i64, cy as i64), #[trigger] data@[cy * w + cx]) by {
                    if cy == y as int {
                        assert(cy * (w as int) == (y as int) * (w as int));
                    }
                }
            }
            y = y + 1;
        }
        proof {
            lemma_mul_is_commutative(h as int, w as int);
        }
        self.light_data = data;
        proof {
            assert forall|cx: int, cy: int| self.in_range(cx, cy) implies self.nearest_light_ok(
                (cx as i64, cy as i64),
                #[trigger] self.light_data@[cy * self.width + cx],
            ) by {
                lemma_cell_index(w as int, h as int, cx, cy);
                assert(cy * (self.width as int) == cy * (w as int));
                assert(self.light_data@[cy * w + cx] == data@[cy * w + cx]);
            }
        }
    }

    /// Whether the given cell blocks rays; any cell outside the grid counts
    /// as open rather than failing.
    pub fn is_blocking_at(&self, p: (i64, i64)) -> (r: bool)
        requires
            self.wf_dims(),
        ensures
            r == self.blocking(p.0 as int, p.1 as int),
    {
        let (x, y) = p;
        if x < 0 || y < 0 || x >= self.width || y >= self.height {
            return false;
        }
        proof {
            lemma_grid_bounds(self.width as int, self.height as int);
            lemma_cell_index(self.width as int, self.height as int, x as int, y as int);
        }
        let idx = (y * self.width + x) as usize;
        self.tiles[idx] == WALL
    }

    /// Tests straight-line visibility between a cell and a light by walking
    /// the discrete line between them and probing each crossed cell.
    #[verifier::loop_isolation(false)]
    pub fn sees(&self, from: (i64, i64), l: (i64, i64)) -> (r: bool)
        requires
            self.wf_dims(),
            -CELL_LIMIT <= from.0 <= CELL_LIMIT,
            -CELL_LIMIT <= from.1 <= CELL_LIMIT,
            -CELL_LIMIT <= l.0 <= CELL_LIMIT,
            -CELL_LIMIT <= l.1 <= CELL_LIMIT,
        ensures
            r == self.sees_light(from, l),
    {
        let cells = get_line(from, l);
        let n = cells.len();
        let mut i: usize = 0;
        while i < n
            invariant
                0 <= i <= n,
                forall|j: int| 0 <= j < i ==> !self.blocking_cell(#[trigger] cells@[j]),
            decreases n - i,
        {
            if self.is_blocking_at(cells[i]) {
                proof {
                    reveal(grid_sees);
                    assert(self.blocking_cell(cells@[i as int]));
                }
                return false;
            }
            i = i + 1;
        }
        proof {
            reveal(grid_sees);
        }
        true
    }

    /// The nearest visible light for each light source listed by the scan,
    /// for one cell: walks a discrete line to every light and keeps the
    /// nearest unobstructed one, scan order breaking ties.
    #[verifier::loop_isolation(false)]
    pub fn prepare_light_data(&self, x: i64, y: i64) -> (r: Option<(i64, i64)>)
        requires
            self.wf_dims(),
            self.in_range(x as int, y as int),
            forall|j: int|
                0 <= j < self.lights@.len() ==> self.in_range(
                    (#[trigger] self.lights@[j]).0 as int,
                    self.lights@[j].1 as int,
                ),
        ensures
            self.nearest_light_ok((x, y), r),
    {
        let n = self.lights.len();
        let mut best: Option<(i64, (i64, i64))> = None;
        let mut j: usize = 0;
        while j < n
            invariant
                0 <= j <= n,
                n == self.lights@.len(),
                match best {
                    None => forall|jj: int|
                        0 <= jj < j ==> !self.sees_light((x, y), #[trigger] self.lights@[jj]),
                    Some((d, l)) => d as int == dist2((x, y), l) && exists|i: int|
                        #[trigger] grid_best_in_prefix(self.tiles@, self.width as int, self.height as int, self.lights@, (x, y), l, i, j as int),
                },
            decreases n - j,
        {
            let l = self.lights[j];
            let ghost jj = j as int;
            let visible = self.sees((x, y), l);
            if visible {
                let d = dist2_cells((x, y), l);
                match best {
                    None => {
                        best = Some((d, l));
                        proof {
                            assert(grid_best_in_prefix(self.tiles@, self.width as int, self.height as int, self.lights@, (x, y), l, jj, jj + 1));
                        }
                    },
                    Some((c, lb)) => {
                        proof {
                            let i0 = choose|i: int|
                                #[trigger] grid_best_in_prefix(self.tiles@, self.width as int, self.height as int, self.lights@, (x, y), lb, i, jj);
                            assert(grid_best_in_prefix(self.tiles@, self.width as int, self.height as int, self.lights@, (x, y), lb, i0, jj));
                            if d < c {
                                assert(grid_best_in_prefix(self.tiles@, self.width as int, self.height as int, self.lights@, (x, y), l, jj, jj + 1));
                            } else {
                                assert(grid_best_in_prefix(self.tiles@, self.width as int, self.height as int, self.lights@, (x, y), lb, i0, jj + 1));
                            }
                        }
                        if d < c {
                            best = Some((d, l));
                        }
                    },
                }
            } else {
                proof {
                    assert(!self.sees_light((x, y), self.lights@[jj]));
                    match best {
                        None => {},
                        Some((c, lb)) => {
                            let i0 = choose|i: int|
                                #[trigger] grid_best_in_prefix(self.tiles@, self.width as int, self.height as int, self.lights@, (x, y), lb, i, jj);
                            assert(grid_best_in_prefix(self.tiles@, self.width as int, self.height as int, self.lights@, (x, y), lb, i0, jj));
                            assert(grid_best_in_prefix(self.tiles@, self.width as int, self.height as int, self.lights@, (x, y), lb, i0, jj + 1));
                        },
                    }
                }
            }
            j = j + 1;
        }
        let result = match best {
            None => None,
            Some((_, l)) => Some(l),
        };
        proof {
            let ti = self.tiles@;
            let wi = self.width as int;
            let hi = self.height as int;
            let ls = self.lights@;
            match best {
                None => {
                    assert(result is None);
                    reveal(grid_dark);
                    assert(forall|jj: int|
                        0 <= jj < ls.len() ==> !grid_sees(ti, wi, hi, (x, y), #[trigger] ls[jj]));
                    assert(grid_dark(ti, wi, hi, ls, (x, y)));
                },
                Some((_, l)) => {
                    assert(result == Some(l));
                    reveal(grid_lit);
                    let i0 = choose|i: int|
                        #[trigger] grid_best_in_prefix(ti, wi, hi, ls, (x, y), l, i, n as int);
                    assert(grid_best_in_prefix(ti, wi, hi, ls, (x, y), l, i0, n as int));
                    assert(grid_witness(ti, wi, hi, ls, (x, y), l, i0));
                    assert(grid_lit(ti, wi, hi, ls, (x, y), l));
                },
            }
            assert(grid_nearest_ok(ti, wi, hi, ls, (x, y), result));
        }
        result
    }

    /// The baked nearest-visible-light entry for a cell: a constant-time
    /// table lookup. Cells outside the grid have no light.
    pub fn nearest_light(&self, x: i64, y: i64) -> (r: Option<(i64, i64)>)
        requires
            self.wf(),
        ensures
            self.in_range(x as int, y as int) ==> r == self.light_data@[y * self.width + x]
                && self.nearest_light_ok((x, y), r),
            !self.in_range(x as int, y as int) ==> r is None,
            match r {
                Some(l) => self.in_range(l.0 as int, l.1 as int),
                None => true,
            },
    {
        if x < 0 || y < 0 || x >= self.width || y >= self.height {
            return None;
        }
        proof {
            lemma_grid_bounds(self.width as int, self.height as int);
            lemma_cell_index(self.width as int, self.height as int, x as int, y as int);
        }
        let idx = (y * self.width + x) as usize;
        let r = self.light_data[idx];
        proof {
            match r {
                None => {},
                Some(l) => {
                    let ti = self.tiles@;
                    let wi = self.width as int;
                    let hi = self.height as int;
                    let ls = self.lights@;
                    assert(self.nearest_light_ok((x, y), r));
                    reveal(grid_lit);
                    let i0 = choose|i: int| #[trigger] grid_witness(ti, wi, hi, ls, (x, y), l, i);
                    assert(grid_witness(ti, wi, hi, ls, (x, y), l, i0));
                    lemma_lights_prefix_range(ti, wi, hi, ti.len() as int);
                },
            }
        }
        r
    }

    /// The baked table entry for the cell containing a world point, `None`
    /// outside the grid.
    pub open spec fn light_lookup(self, gx: int, gy: int) -> Option<(i64, i64)> {
        if self.in_range(gx, gy) {
            self.light_data@[gy * self.width + gx]
        } else {
            None
        }
    }

    /// The dithered distance from a world point to its cell's nearest
    /// visible light: `None` when the point's cell has no visible light or
    /// lies outside the grid. The dither affects shading only; which light
    /// is found and whether one is found never depend on it.
    /// The distance from a world point to its cell's nearest visible
    /// light, measured to the light's quarter-tile anchor nudged by the
    /// given dither: `None` when the point's cell has no visible light or
    /// lies outside the grid.
    fn light_distance_dithered(&self, x: i64, y: i64, side: Side, ts_fx: i64, dt: i64) -> (r:
        Option<i64>)
        requires
            self.wf(),
            65536 <= ts_fx <= 0x1000_0000,
            -0x20_0000_0000_0000 <= x <= 0x20_0000_0000_0000,
            -0x20_0000_0000_0000 <= y <= 0x20_0000_0000_0000,
            0 <= dt < 0x12_0000,
        ensures
            (r is Some) <==> (self.light_lookup(
                x as int / ts_fx as int,
                y as int / ts_fx as int,
            ) is Some),
            match r {
                None => true,
                Some(d) => {
                    &&& 0 <= d <= 0x100_0000_0000_0000
                    &&& match self.light_lookup(x as int / ts_fx as int, y as int / ts_fx as int) {
                        Some(l) => d as int == dithered_light_distance(
                            x as int,
                            y as int,
                            ts_fx as int,
                            l.0 as int,
                            l.1 as int,
                            side,
                            dt as int,
                        ),
                        None => false,
                    }
                },
            },
    {
        let gx = floor_div(x, ts_fx);
        let gy = floor_div(y, ts_fx);
        let entry = self.nearest_light(gx, gy);
        proof {
            if self.in_range(gx as int, gy as int) {
                lemma_grid_bounds(self.width as int, self.height as int);
                lemma_cell_index(self.width as int, self.height as int, gx as int, gy as int);
            }
        }
        match entry {
            None => None,
            Some((lx, ly)) => {
                let ox: i64 = if side == Side::Horizontal {
                    if gx > lx {
                        dt
                    } else if gx < lx {
                        -dt
                    } else {
                        0
                    }
                } else {
                    0
                };
                let oy: i64 = if side == Side::Vertical {
                    if gy > ly {
                        dt
                    } else if gy < ly {
                        -dt
                    } else {
                        0
                    }
                } else {
                    0
                };
                proof {
                    assert(ox as int == if side == Side::Horizontal {
                        dt as int * sign_of(gx as int - lx as int)
                    } else {
                        0int
                    }) by (nonlinear_arith)
                        requires
                            ox as int == if side == Side::Horizontal {
                                if gx as int > lx as int {
                                    dt as int
                                } else if (gx as int) < lx as int {
                                    -(dt as int)
                                } else {
                                    0int
                                }
                            } else {
                                0int
                            },
                            sign_of(gx as int - lx as int) == if gx as int > lx as int {
                                1int
                            } else if (gx as int) < lx as int {
                                -1int
                            } else {
                                0int
                            },
                    ;
                    assert(oy as int == if side == Side::Vertical {
                        dt as int * sign_of(gy as int - ly as int)
                    } else {
                        0int
                    }) by (nonlinear_arith)
                        requires
                            oy as int == if side == Side::Vertical {
                                if gy as int > ly as int {
                                    dt as int
                                } else if (gy as int) < ly as int {
                                    -(dt as int)
                                } else {
                                    0int
                                }
                            } else {
                                0int
                            },
                            sign_of(gy as int - ly as int) == if gy as int > ly as int {
                                1int
                            } else if (gy as int) < ly as int {
                                -1int
                            } else {
                                0int
                            },
                    ;
                }
                proof {
                    assert(0 <= lx as int * ts_fx as int <= 0x8_0000_0000_0000int)
                        by (nonlinear_arith)
                        requires
                            0 <= lx as int <= 0x8000,
                            0 < ts_fx as int <= 0x1000_0000,
                    ;
                    assert(0 <= ly as int * ts_fx as int <= 0x8_0000_0000_0000int)
                        by (nonlinear_arith)
                        requires
                            0 <= ly as int <= 0x8000,
                            0 < ts_fx as int <= 0x1000_0000,
                    ;
                }
                let lwx: i64 = lx * ts_fx + ts_fx / 4 + ox;
                let lwy: i64 = ly * ts_fx + ts_fx / 4 + oy;
                let ddx: i64 = lwx - x;
                let ddy: i64 = lwy - y;
                proof {
                    let gxi = ddx as int;
                    let gyi = ddy as int;
                    let sq = gxi * gxi + gyi * gyi;
                    assert(0 <= sq && sq < 0x2000_0000_0000_0000_0000_0000_0000int && 0 <= gxi
                        * gxi && gxi * gxi < 0x2000_0000_0000_0000_0000_0000_0000int && 0
                        <= gyi * gyi && gyi * gyi
                        < 0x2000_0000_0000_0000_0000_0000_0000int) by (nonlinear_arith)
                        requires
                            sq == gxi * gxi + gyi * gyi,
                            -0x30_0000_0000_0000 <= gxi <= 0x30_0000_0000_0000,
                            -0x30_0000_0000_0000 <= gyi <= 0x30_0000_0000_0000,
                    ;
                }
                let d2: u128 = (ddx as i128 * ddx as i128 + ddy as i128 * ddy as i128) as u128;
                let dist: u64 = isqrt(d2);
                proof {
                    assert((dist as int) * (dist as int) <= d2 as int);
                    assert((dist as int) < 0x80_0000_0000_0000int) by (nonlinear_arith)
                        requires
                            0 <= dist as int,
                            (dist as int) * (dist as int)
                                < 0x2000_0000_0000_0000_0000_0000_0000int,
                    ;
                }
                let extra: i64 = match side {
                    Side::Floor => dt,
                    Side::Ceiling => dt,
                    _ => 0,
                };
                let d: i64 = dist as i64 + extra;
                proof {
                    assert(d as int == dithered_light_distance(
                        x as int,
                        y as int,
                        ts_fx as int,
                        lx as int,
                        ly as int,
                        side,
                        dt as int,
                    ));
                }
                Some(d)
            },
        }
    }

    /// The dithered distance from a world point to its cell's nearest
    /// visible light: `None` when the point's cell has no visible light or
    /// lies outside the grid. The dither affects shading only; which light
    /// is found and whether one is found never depend on it.
    pub fn distance_to_light(
        &self,
        x: i64,
        y: i64,
        rng: &mut rand::rngs::SmallRng,
        side: Side,
        ts_fx: i64,
    ) -> (r: Option<i64>)
        requires
            self.wf(),
            65536 <= ts_fx <= 0x1000_0000,
            -0x20_0000_0000_0000 <= x <= 0x20_0000_0000_0000,
            -0x20_0000_0000_0000 <= y <= 0x20_0000_0000_0000,
        ensures
            (r is Some) <==> (self.light_lookup(
                x as int / ts_fx as int,
                y as int / ts_fx as int,
            ) is Some),
            match r {
                None => true,
                Some(d) => {
                    &&& 0 <= d <= 0x100_0000_0000_0000
                    &&& match self.light_lookup(x as int / ts_fx as int, y as int / ts_fx as int) {
                        Some(l) => exists|dt: int|
                            65536 <= dt < dither_limit(side) && d as int
                                == #[trigger] dithered_light_distance(
                                x as int,
                                y as int,
                                ts_fx as int,
                                l.0 as int,
                                l.1 as int,
                                side,
                                dt,
                            ),
                        None => false,
                    }
                },
            },
    {
        let hi: i64 = match side {
            Side::Floor => 18 * 65536,
            Side::Ceiling => 18 * 65536,
            _ => 2 * 65536,
        };
        let dt = crate::rng::rand_in_range(rng, 65536, hi);
        self.light_distance_dithered(x, y, side, ts_fx, dt)
    }

    /// The exact, undithered distance from a world point to its cell's
    /// nearest visible light: the deterministic form of the query, for
    /// callers that do not shade.
    pub fn distance_to_light_exact(&self, x: i64, y: i64, side: Side, ts_fx: i64) -> (r: Option<
        i64,
    >)
        requires
            self.wf(),
            65536 <= ts_fx <= 0x1000_0000,
            -0x20_0000_0000_0000 <= x <= 0x20_0000_0000_0000,
            -0x20_0000_0000_0000 <= y <= 0x20_0000_0000_0000,
        ensures
            (r is Some) <==> (self.light_lookup(
                x as int / ts_fx as int,
                y as int / ts_fx as int,
            ) is Some),
            match r {
                None => true,
                Some(d) => {
                    &&& 0 <= d <= 0x100_0000_0000_0000
                    &&& match self.light_lookup(x as int / ts_fx as int, y as int / ts_fx as int) {
                        Some(l) => d as int == dithered_light_distance(
                            x as int,
                            y as int,
                            ts_fx as int,
                            l.0 as int,
                            l.1 as int,
                            side,
                            0,
                        ),
                        None => false,
                    }
                },
            },
    {
        self.light_distance_dithered(x, y, side, ts_fx, 0)
    }

}

/// The sign of an integer.
pub open spec fn sign_of(a: int) -> int {
    if a > 0 {
        1int
    } else if a < 0 {
        -1int
    } else {
        0int
    }
}

/// The dithered distance from a world point to the quarter-tile anchor of
/// the light in cell `(lx, ly)`: the anchor is nudged along the sampled
/// axis by the dither, and floor and ceiling samples add the dither to the
/// distance itself to break up banding.
pub open spec fn dithered_light_distance(
    x: int,
    y: int,
    ts: int,
    lx: int,
    ly: int,
    side: Side,
    dt: int,
) -> int {
    let lwx = lx * ts + ts / 4 + if side == Side::Horizontal {
        dt * sign_of(x / ts - lx)
    } else {
        0int
    };
    let lwy = ly * ts + ts / 4 + if side == Side::Vertical {
        dt * sign_of(y / ts - ly)
    } else {
        0int
    };
    sqrt_floor(fx_dist2(lwx, lwy, x, y) as nat) + if side == Side::Floor || side == Side::Ceiling {
        dt
    } else {
        0int
    }
}

/// The dither magnitude bound for a surface: floor and ceiling samples use
/// a wide band to break up light-radius banding, wall samples a narrow one.
pub open spec fn dither_limit(side: Side) -> int {
    if side == Side::Floor || side == Side::Ceiling {
        18int * 65536
    } else {
        2int * 65536
    }
}

/// A cell whose only light source is cut off by a blocking cell on the
/// connecting line has no recorded light.
pub proof fn lemma_blocked_light_is_none(m: GridMap, x: i64, y: i64)
    requires
        m.wf(),
        m.in_range(x as int, y as int),
        m.lights@.len() == 1,
        !m.sees_light((x, y), m.lights@[0]),
    ensures
        m.light_data@[y * m.width + x] is None,
{
    let ti = m.tiles@;
    let wi = m.width as int;
    let hi = m.height as int;
    let ls = m.lights@;
    let entry = m.light_data@[y as int * wi + x as int];
    assert(m.nearest_light_ok((x, y), entry));
    match entry {
        None => {},
        Some(l) => {
            reveal(grid_lit);
            let i0 = choose|i: int| #[trigger] grid_witness(ti, wi, hi, ls, (x, y), l, i);
            assert(grid_witness(ti, wi, hi, ls, (x, y), l, i0));
            assert(i0 == 0);
            assert(false);
        },
    }
}

/// A cell with an unobstructed straight line to the grid's single light
/// source has exactly that light recorded.
pub proof fn lemma_visible_light_is_recorded(m: GridMap, x: i64, y: i64)
    requires
        m.wf(),
        m.in_range(x as int, y as int),
        m.lights@.len() == 1,
        m.sees_light((x, y), m.lights@[0]),
    ensures
        m.light_data@[y * m.width + x] == Some(m.lights@[0]),
{
    let ti = m.tiles@;
    let wi = m.width as int;
    let hi = m.height as int;
    let ls = m.lights@;
    let entry = m.light_data@[y as int * wi + x as int];
    assert(m.nearest_light_ok((x, y), entry));
    match entry {
        None => {
            reveal(grid_dark);
            assert(!grid_sees(ti, wi, hi, (x, y), ls[0]));
            assert(false);
        },
        Some(l) => {
            reveal(grid_lit);
            let i0 = choose|i: int| #[trigger] grid_witness(ti, wi, hi, ls, (x, y), l, i);
            assert(grid_witness(ti, wi, hi, ls, (x, y), l, i0));
            assert(i0 == 0);
            assert(l == ls[0]);
        },
    }
}

/// Squared Euclidean distance between two in-bound cells.
pub fn dist2_cells(a: (i64, i64), b: (i64, i64)) -> (r: i64)
    requires
        -CELL_LIMIT <= a.0 <= CELL_LIMIT,
        -CELL_LIMIT <= a.1 <= CELL_LIMIT,
        -CELL_LIMIT <= b.0 <= CELL_LIMIT,
        -CELL_LIMIT <= b.1 <= CELL_LIMIT,
    ensures
        r as int == dist2(a, b),
        r >= 0,
{
    let dx = a.0 - b.0;
    let dy = a.1 - b.1;
    proof {
        assert(0 <= dx as int * dx as int <= 0x4_0000_0000_0000int && 0 <= dy as int * dy as int
            <= 0x4_0000_0000_0000int) by (nonlinear_arith)
            requires
                -0x20_0000 <= dx as int <= 0x20_0000,
                -0x20_0000 <= dy as int <= 0x20_0000,
        ;
    }
    dx * dx + dy * dy
}

} // verus!
