//! Discrete line traversal over grid cells (Bresenham), and the search for
//! the first cell on a line that satisfies a predicate. The light bake uses
//! it to test straight-line visibility between a cell and a light source.

use vstd::prelude::*;
use vstd::arithmetic::div_mod::*;
use vstd::arithmetic::mul::*;
use vstd::math::abs;

verus! {

/// Cell coordinates handled by the line walker stay within this bound.
pub const CELL_LIMIT: i64 = 0x10_0000;

/// How many minor-axis steps the discrete line walk has taken when it
/// reaches major-axis step `k`, for a line of major extent `dx` and minor
/// extent `dy`: the closed form of the error accumulator.
pub open spec fn bres_steps(dx: int, dy: int, k: int) -> int {
    (2 * k * dy + dx) / (2 * dx)
}

/// The cells the discrete line from `a` to `b` passes through, in walk
/// order: the walk starts at the endpoint with the smaller major-axis
/// coordinate and excludes the other endpoint.
pub open spec fn line_points(a: (int, int), b: (int, int)) -> Seq<(int, int)> {
    let steep = abs(b.1 - a.1) > abs(b.0 - a.0);
    let p0 = if steep { (a.1, a.0) } else { a };
    let p1 = if steep { (b.1, b.0) } else { b };
    let q0 = if p0.0 > p1.0 { p1 } else { p0 };
    let q1 = if p0.0 > p1.0 { p0 } else { p1 };
    let dx = q1.0 - q0.0;
    let dy = abs(q1.1 - q0.1) as int;
    let ystep: int = if q0.1 < q1.1 { 1 } else { -1 };
    Seq::new(dx as nat, |k: int| {
        let u = q0.0 + k;
        let v = q0.1 + ystep * bres_steps(dx, dy, k);
        if steep {
            (v, u)
        } else {
            (u, v)
        }
    })
}

/// `line_points`, with each cell narrowed back to machine integers.
pub open spec fn line_cells(a: (i64, i64), b: (i64, i64)) -> Seq<(i64, i64)> {
    line_points((a.0 as int, a.1 as int), (b.0 as int, b.1 as int)).map_values(
        |p: (int, int)| (p.0 as i64, p.1 as i64),
    )
}

/// The minor-axis step count starts at zero and never outruns the major
/// axis.
proof fn lemma_bres_steps_bounds(dx: int, dy: int, k: int)
    requires
        0 < dx,
        0 <= dy <= dx,
        0 <= k,
    ensures
        0 <= bres_steps(dx, dy, k) <= k,
{
    let n = 2 * k * dy + dx;
    lemma_mul_nonnegative(2 * k, dy);
    lemma_div_pos_is_pos(n, 2 * dx);
    lemma_mul_inequality(dy, dx, 2 * k);
    lemma_mul_is_commutative(2 * k, dy);
    lemma_mul_is_commutative(2 * k, dx);
    assert(2 * k * dx + dx < (2 * dx) * (k + 1)) by (nonlinear_arith)
        requires
            0 < dx,
            0 <= k,
    ;
    lemma_multiply_divide_lt(n, 2 * dx, k + 1);
}

/// One step of the error accumulator agrees with the closed form: advancing
/// the major axis by one adds a minor step exactly when the accumulated
/// error has crossed half a cell.
proof fn lemma_bres_step(dx: int, dy: int, k: int)
    requires
        0 < dx,
        0 <= dy <= dx,
        0 <= k,
    ensures
        bres_steps(dx, dy, k + 1) == bres_steps(dx, dy, k) + if 2 * ((k + 1) * dy
            - bres_steps(dx, dy, k) * dx) >= dx {
            1int
        } else {
            0int
        },
{
    let n = 2 * k * dy + dx;
    let c = n / (2 * dx);
    let r = n % (2 * dx);
    lemma_fundamental_div_mod(n, 2 * dx);
    lemma_mod_bound(n, 2 * dx);
    assert(2 * (k + 1) * dy + dx == n + 2 * dy) by (nonlinear_arith)
        requires
            n == 2 * k * dy + dx,
    ;
    assert(2 * ((k + 1) * dy - c * dx) == r + 2 * dy - dx) by (nonlinear_arith)
        requires
            n == (2 * dx) * c + r,
            n == 2 * k * dy + dx,
    ;
    if r + 2 * dy >= 2 * dx {
        let t = r + 2 * dy - 2 * dx;
        assert(n + 2 * dy == (2 * dx) * (c + 1) + t) by (nonlinear_arith)
            requires
                n == (2 * dx) * c + r,
                t == r + 2 * dy - 2 * dx,
        ;
        lemma_div_multiples_vanish_fancy(c + 1, t, 2 * dx);
    } else {
        lemma_div_multiples_vanish_fancy(c, r + 2 * dy, 2 * dx);
    }
}

/// The accumulated error stays within half a cell of the ideal line.
proof fn lemma_bres_error_bounds(dx: int, dy: int, k: int)
    requires
        0 < dx,
        0 <= dy <= dx,
        0 <= k,
    ensures
        -dx <= 2 * (k * dy - bres_steps(dx, dy, k) * dx) < dx,
{
    let n = 2 * k * dy + dx;
    let c = n / (2 * dx);
    let r = n % (2 * dx);
    lemma_fundamental_div_mod(n, 2 * dx);
    lemma_mod_bound(n, 2 * dx);
    assert(2 * (k * dy - c * dx) == r - dx) by (nonlinear_arith)
        requires
            n == (2 * dx) * c + r,
            n == 2 * k * dy + dx,
    ;
}

/// Multiplication by a unit sign is negation or identity.
proof fn lemma_sign_mul(s: int, c: int)
    requires
        s == 1 || s == -1,
    ensures
        s == 1 ==> s * c == c,
        s == -1 ==> s * c == -c,
{
    lemma_mul_basics(c);
    lemma_mul_unary_negation(1, c);
}

/// Walks the discrete line from `a` to `b`, returning every grid cell it
/// passes through, in walk order.
#[verifier::loop_isolation(false)]
#[verifier::rlimit(80)]
pub fn get_line(a: (i64, i64), b: (i64, i64)) -> (r: Vec<(i64, i64)>)
    requires
        -CELL_LIMIT <= a.0 <= CELL_LIMIT,
        -CELL_LIMIT <= a.1 <= CELL_LIMIT,
        -CELL_LIMIT <= b.0 <= CELL_LIMIT,
        -CELL_LIMIT <= b.1 <= CELL_LIMIT,
    ensures
        r@ == line_cells(a, b),
{
    let (mut x0, mut y0) = a;
    let (mut x1, mut y1) = b;

    let adx: i64 = if x1 >= x0 { x1 - x0 } else { x0 - x1 };
    let ady: i64 = if y1 >= y0 { y1 - y0 } else { y0 - y1 };
    let steep = ady > adx;

    if steep {
        let t0 = x0;
        x0 = y0;
        y0 = t0;
        let t1 = x1;
        x1 = y1;
        y1 = t1;
    }

    if x0 > x1 {
        let tx = x0;
        x0 = x1;
        x1 = tx;
        let ty = y0;
        y0 = y1;
        y1 = ty;
    }

    let dx: i64 = x1 - x0;
    let dy: i64 = if y1 >= y0 { y1 - y0 } else { y0 - y1 };
    let ystep: i64 = if y0 < y1 { 1 } else { -1 };

    let ghost pts = line_points((a.0 as int, a.1 as int), (b.0 as int, b.1 as int));
    proof {
        let ga = (a.0 as int, a.1 as int);
        let gb = (b.0 as int, b.1 as int);
        let ssteep = abs(gb.1 - ga.1) > abs(gb.0 - ga.0);
        assert(ssteep == steep);
        let p0 = if ssteep { (ga.1, ga.0) } else { ga };
        let p1 = if ssteep { (gb.1, gb.0) } else { gb };
        let q0 = if p0.0 > p1.0 { p1 } else { p0 };
        let q1 = if p0.0 > p1.0 { p0 } else { p1 };
        assert(q0 == (x0 as int, y0 as int));
        assert(q1 == (x1 as int, y1 as int));
        assert(dx as int == q1.0 - q0.0);
        assert(dy as int == abs(q1.1 - q0.1) as int);
        assert((ystep as int) == if q0.1 < q1.1 { 1int } else { -1int });
        assert(pts.len() == dx as int);
    }

    let mut result: Vec<(i64, i64)> = Vec::new();
    let mut error: i64 = 0;
    let mut y: i64 = y0;
    let mut k: i64 = 0;

    proof {
        if dx > 0 {
            lemma_basic_div_specific_divisor(2 * dx as int);
            lemma_mul_basics(dy as int);
            lemma_mul_basics(dx as int);
            lemma_mul_basics(ystep as int);
            assert((2 * 0) * (dy as int) == 0);
            assert(bres_steps(dx as int, dy as int, 0) == 0);
            lemma_sign_mul(ystep as int, bres_steps(dx as int, dy as int, 0));
        }
    }

    while k < dx
        invariant
            0 <= k <= dx,
            dx == x1 - x0,
            0 <= dy <= dx,
            dx <= 4 * CELL_LIMIT,
            -CELL_LIMIT <= x0 <= CELL_LIMIT,
            -CELL_LIMIT <= y0 <= CELL_LIMIT,
            ystep == 1 || ystep == -1,
            pts.len() == dx as int,
            k < dx ==> dx > 0,
            dx > 0 ==> y as int == y0 as int + ystep as int * bres_steps(
                dx as int,
                dy as int,
                k as int,
            ),
            dx > 0 ==> error as int == k as int * dy as int - bres_steps(
                dx as int,
                dy as int,
                k as int,
            ) * dx as int,
            dx > 0 ==> -dx <= 2 * (error as int) < dx,
            dx > 0 ==> y0 - dx <= y <= y0 + dx,
            result@.len() == k as nat,
            forall|i: int|
                0 <= i < k ==> #[trigger] result@[i] == (pts[i].0 as i64, pts[i].1 as i64),
            forall|i: int| 0 <= i < k ==> #[trigger] pts[i] == (
                if steep {
                    (y0 as int + ystep as int * bres_steps(dx as int, dy as int, i), x0 + i)
                } else {
                    (x0 + i, y0 as int + ystep as int * bres_steps(dx as int, dy as int, i))
                }
            ),
        decreases dx - k,
    {
        proof {
            lemma_bres_steps_bounds(dx as int, dy as int, k as int);
            lemma_sign_mul(ystep as int, bres_steps(dx as int, dy as int, k as int));
        }
        let u: i64 = x0 + k;
        if steep {
            result.push((y, u));
        } else {
            result.push((u, y));
        }
        proof {
            let ki = k as int;
            let dxi = dx as int;
            let dyi = dy as int;
            let c0 = bres_steps(dxi, dyi, ki);
            let c1 = bres_steps(dxi, dyi, ki + 1);
            lemma_bres_step(dxi, dyi, ki);
            lemma_bres_steps_bounds(dxi, dyi, ki + 1);
            lemma_bres_error_bounds(dxi, dyi, ki + 1);
            lemma_sign_mul(ystep as int, c1);
            lemma_mul_is_distributive_add_other_way(dyi, ki, 1);
            lemma_mul_basics(dyi);
            lemma_mul_is_distributive_add_other_way(dxi, c0, 1);
            lemma_mul_basics(dxi);
        }
        error = error + dy;
        if 2 * error >= dx {
            y = y + ystep;
            error = error - dx;
        }
        k = k + 1;
    }

    proof {
        assert forall|i: int| 0 <= i < pts.len() implies result@[i] == (
            pts[i].0 as i64,
            pts[i].1 as i64,
        ) by {
            lemma_bres_steps_bounds(dx as int, dy as int, i);
        }
        assert(result@ =~= line_cells(a, b));
    }
    result
}

/// Walks the discrete line from `point_a` to `point_b` and returns the first
/// cell for which `is_valid` answers true, if there is one.
#[verifier::loop_isolation(false)]
pub fn raycast<F: Fn((i64, i64)) -> bool>(
    point_a: (i64, i64),
    point_b: (i64, i64),
    is_valid: F,
) -> (r: Option<(i64, i64)>)
    requires
        -CELL_LIMIT <= point_a.0 <= CELL_LIMIT,
        -CELL_LIMIT <= point_a.1 <= CELL_LIMIT,
        -CELL_LIMIT <= point_b.0 <= CELL_LIMIT,
        -CELL_LIMIT <= point_b.1 <= CELL_LIMIT,
        forall|p: (i64, i64)| #[trigger] is_valid.requires((p,)),
    ensures
        match r {
            None => forall|i: int|
                0 <= i < line_cells(point_a, point_b).len() ==> is_valid.ensures(
                    (#[trigger] line_cells(point_a, point_b)[i],),
                    false,
                ),
            Some(p) => exists|i: int|
                0 <= i < line_cells(point_a, point_b).len() && #[trigger] line_cells(
                    point_a,
                    point_b,
                )[i] == p && is_valid.ensures((p,), true) && forall|j: int|
                    0 <= j < i ==> is_valid.ensures((line_cells(point_a, point_b)[j],), false),
        },
{
    let points = get_line(point_a, point_b);
    let ghost cells = line_cells(point_a, point_b);
    let n = points.len();
    let mut i: usize = 0;
    while i < n
        invariant
            0 <= i <= n,
            n == points.len(),
            points@ == cells,
            forall|p: (i64, i64)| #[trigger] is_valid.requires((p,)),
            forall|j: int| 0 <= j < i ==> is_valid.ensures((#[trigger] cells[j],), false),
        decreases n - i,
    {
        let p = points[i];
        if is_valid(p) {
            proof {
                assert(cells[i as int] == p);
            }
            return Some(p);
        }
        i = i + 1;
    }
    None
}

} // verus!
