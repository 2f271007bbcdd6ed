//! Q16.16 fixed-point arithmetic: the scalar domain of the renderer.
//!
//! A stored `i64` value `v` denotes the real number `v / 65536`. Products and
//! quotients are computed through `i128` intermediates and rounded toward
//! zero; conversions from a coordinate to a grid cell round toward minus
//! infinity, matching a real-number `floor`.

use vstd::prelude::*;
use vstd::arithmetic::div_mod::*;
use vstd::arithmetic::mul::*;
use vstd::math::abs;

verus! {

/// One whole unit in Q16.16 fixed point.
pub const FX_ONE: i64 = 65536;

/// Truncating (toward-zero) integer division, the rounding of `/` on `i64`
/// and `i128`. `b` must be nonzero.
pub open spec fn tdiv(a: int, b: int) -> int {
    if a >= 0 {
        a / b
    } else {
        -((-a) / b)
    }
}

/// The quotient of a division by `d >= 1` never grows in magnitude.
pub proof fn lemma_div_range(a: int, d: int)
    requires
        1 <= d,
    ensures
        a >= 0 ==> 0 <= a / d <= a,
        a < 0 ==> a <= a / d <= 0,
{
    if a >= 0 {
        lemma_div_pos_is_pos(a, d);
        lemma_mul_inequality(1, d, a);
        lemma_mul_is_commutative(d, a);
        lemma_div_is_ordered(a, d * a, d);
        lemma_div_multiples_vanish(a, d);
    } else {
        lemma_mul_inequality(1, d, -a);
        lemma_mul_is_commutative(d, -a);
        lemma_mul_unary_negation(d, a);
        lemma_div_is_ordered(d * a, a, d);
        lemma_div_multiples_vanish(a, d);
        lemma_div_is_ordered(a, 0, d);
        lemma_div_of0(d);
    }
}

/// As `lemma_div_range`, stated for truncating division.
pub proof fn lemma_tdiv_range(a: int, d: int)
    requires
        1 <= d,
    ensures
        a >= 0 ==> 0 <= tdiv(a, d) <= a,
        a < 0 ==> a <= tdiv(a, d) <= 0,
{
    if a >= 0 {
        lemma_div_range(a, d);
    } else {
        lemma_div_range(-a, d);
    }
}

/// Euclidean division by a negative divisor mirrors division by its
/// magnitude.
pub proof fn lemma_div_neg(x: int, d: int)
    requires
        d < 0,
    ensures
        x / d == -(x / (-d)),
{
    assert(x / d == -(x / (-d))) by (nonlinear_arith)
        requires
            d < 0,
    ;
}

/// A truncating quotient never grows in magnitude, whatever the divisor's
/// sign.
pub proof fn lemma_tdiv_bound(a: int, b: int)
    requires
        b != 0,
    ensures
        -abs(a) <= tdiv(a, b) <= abs(a),
{
    if b >= 1 {
        lemma_tdiv_range(a, b);
    } else {
        if a >= 0 {
            lemma_div_neg(a, b);
            lemma_div_range(a, -b);
        } else {
            lemma_div_neg(-a, b);
            lemma_div_range(-a, -b);
        }
    }
}

/// Floor division: rounds toward minus infinity, as `floor` on a real
/// quotient does. Used to convert a fixed-point coordinate to a grid cell.
pub fn floor_div(a: i64, d: i64) -> (r: i64)
    requires
        1 <= d,
    ensures
        r as int == a as int / d as int,
{
    proof {
        lemma_div_range(a as int, d as int);
    }
    match a.checked_div_euclid(d) {
        Some(q) => q,
        None => unreached(),
    }
}

/// Euclidean remainder: the offset of a coordinate within its grid cell,
/// always in `[0, m)`.
pub fn floor_rem(a: i64, m: i64) -> (r: i64)
    requires
        1 <= m,
    ensures
        r as int == a as int % m as int,
        0 <= r < m,
{
    proof {
        lemma_mod_bound(a as int, m as int);
    }
    match a.checked_rem_euclid(m) {
        Some(r) => r,
        None => unreached(),
    }
}

/// Fixed-point product `a * b`, rounded toward zero.
pub fn fx_mul(a: i64, b: i64) -> (r: i64)
    requires
        i64::MIN <= tdiv(a as int * b as int, FX_ONE as int) <= i64::MAX,
    ensures
        r as int == tdiv(a as int * b as int, FX_ONE as int),
{
    proof {
        let ai = a as int;
        let bi = b as int;
        assert(-0x4000_0000_0000_0000_0000_0000_0000_0000int <= ai * bi <= 0x4000_0000_0000_0000_0000_0000_0000_0000int) by (nonlinear_arith)
            requires
                -0x8000_0000_0000_0000 <= ai <= 0x7fff_ffff_ffff_ffff,
                -0x8000_0000_0000_0000 <= bi <= 0x7fff_ffff_ffff_ffff,
        ;
    }
    let p: i128 = (a as i128) * (b as i128);
    let q: i128 = p / 65536;
    q as i64
}

/// Fixed-point quotient `a / b`, rounded toward zero. `b` must be nonzero.
pub fn fx_div(a: i64, b: i64) -> (r: i64)
    requires
        b != 0,
        i64::MIN <= tdiv(a as int * FX_ONE as int, b as int) <= i64::MAX,
    ensures
        r as int == tdiv(a as int * FX_ONE as int, b as int),
{
    let p: i128 = (a as i128) * 65536;
    let q: i128 = p / (b as i128);
    q as i64
}

/// `fx_div` for a small numerator: the quotient of one tile-sized span by
/// any nonzero slope stays within the per-step advance bound.
pub fn fx_div_small(a: i64, b: i64) -> (r: i64)
    requires
        b != 0,
        -0x1000_0000 <= a <= 0x1000_0000,
    ensures
        r as int == tdiv(a as int * FX_ONE as int, b as int),
        -0x1000_0000_0000 <= r <= 0x1000_0000_0000,
{
    proof {
        lemma_tdiv_bound(a as int * FX_ONE as int, b as int);
    }
    fx_div(a, b)
}

/// `fx_mul` for one tile-sized factor and one tangent-sized factor: the
/// product stays within the per-step advance bound.
pub fn fx_mul_small(a: i64, b: i64) -> (r: i64)
    requires
        -0x1000_0000 <= a <= 0x1000_0000,
        -0x1_0000_0000 <= b <= 0x1_0000_0000,
    ensures
        r as int == tdiv(a as int * b as int, FX_ONE as int),
        -0x1000_0000_0000 <= r <= 0x1000_0000_0000,
{
    proof {
        let p = a as int * b as int;
        assert(-0x1000_0000_0000_0000int <= p <= 0x1000_0000_0000_0000int)
            by (nonlinear_arith)
            requires
                p == a as int * b as int,
                -0x1000_0000 <= a as int <= 0x1000_0000,
                -0x1_0000_0000 <= b as int <= 0x1_0000_0000,
        ;
        if p >= 0 {
            lemma_div_pos_is_pos(p, 65536);
            lemma_div_is_ordered(p, 0x1000_0000_0000_0000, 65536);
        } else {
            lemma_div_pos_is_pos(-p, 65536);
            lemma_div_is_ordered(-p, 0x1000_0000_0000_0000, 65536);
        }
    }
    fx_mul(a, b)
}

/// Scales a nonnegative fixed-point value by a unit-bounded factor such as
/// a sine or cosine: the result keeps the value's magnitude bound.
pub fn fx_mul_unit(a: i64, b: i64) -> (r: i64)
    requires
        0 <= a,
        -65536 <= b <= 65536,
    ensures
        r as int == tdiv(a as int * b as int, FX_ONE as int),
        -a <= r <= a,
        b >= 0 ==> r >= 0,
{
    proof {
        let ai = a as int;
        let bi = b as int;
        lemma_div_multiples_vanish(ai, 65536);
        if bi >= 0 {
            lemma_mul_nonnegative(ai, bi);
            lemma_mul_inequality(bi, 65536, ai);
            lemma_mul_is_commutative(ai, bi);
            lemma_mul_is_commutative(ai, 65536);
            lemma_div_is_ordered(ai * bi, 65536 * ai, 65536);
            lemma_div_pos_is_pos(ai * bi, 65536);
        } else {
            lemma_mul_unary_negation(ai, bi);
            lemma_mul_nonnegative(ai, -bi);
            lemma_mul_inequality(-bi, 65536, ai);
            lemma_mul_is_commutative(ai, -bi);
            lemma_mul_is_commutative(ai, 65536);
            lemma_div_is_ordered(ai * (-bi), 65536 * ai, 65536);
            lemma_div_pos_is_pos(ai * (-bi), 65536);
        }
    }
    fx_mul(a, b)
}

/// Scales the in-tile fraction of coordinate `x` into `[0, w)`: the texture
/// column or row that a world coordinate samples when the texture tiles every
/// `m` fixed-point units.
pub fn tile_frac_scaled(x: i64, m: i64, w: i64) -> (r: i64)
    requires
        1 <= m <= 0x1000_0000,
        1 <= w <= 0x10000,
    ensures
        r as int == ((x as int % m as int) * w as int) / m as int,
        0 <= r < w,
{
    let f = floor_rem(x, m);
    proof {
        lemma_mul_nonnegative(f as int, w as int);
        lemma_mul_inequality(f as int, m as int - 1, w as int);
        lemma_mul_strict_inequality(m as int - 1, m as int, w as int);
        assert((m as int - 1) * (w as int) <= 0x1000_0000_0000_0000int) by (nonlinear_arith)
            requires
                0 <= m as int - 1 <= 0x1000_0000,
                0 <= w as int <= 0x10000,
        ;
    }
    let p: i64 = f * w;
    proof {
        lemma_div_pos_is_pos(p as int, m as int);
        lemma_mul_is_commutative(m as int, w as int);
        lemma_multiply_divide_lt(p as int, m as int, w as int);
    }
    p / m
}

/// Tiling is seamless: moving one full tile span leaves the sampled texture
/// coordinate unchanged.
pub proof fn lemma_tile_frac_periodic(x: int, m: int)
    requires
        1 <= m,
    ensures
        (x + m) % m == x % m,
{
    lemma_mod_add_multiples_vanish(x, m);
}

/// Rounds `d` to the nearest multiple of `m` (half rounds up).
pub fn round_to_multiple(d: i64, m: i64) -> (r: i64)
    requires
        0 <= d,
        1 <= m,
        d + m <= i64::MAX,
    ensures
        r as int == ((d as int + m as int / 2) / m as int) * m as int,
        0 <= r <= d + m / 2,
        (r as int) % (m as int) == 0,
{
    let h: i64 = m / 2;
    let q: i64 = (d + h) / m;
    proof {
        let n = d as int + h as int;
        lemma_div_pos_is_pos(n, m as int);
        lemma_fundamental_div_mod(n, m as int);
        lemma_mod_bound(n, m as int);
        lemma_mul_is_commutative(m as int, n / m as int);
        lemma_mod_multiples_basic(n / m as int, m as int);
    }
    q * m
}

/// Floor of the square root: the unique `r` with `r * r <= n < (r+1) * (r+1)`.
pub open spec fn sqrt_floor(n: nat) -> nat
    decreases n,
{
    if n == 0 {
        0
    } else {
        let s = sqrt_floor((n - 1) as nat);
        if (s + 1) * (s + 1) <= n {
            s + 1
        } else {
            s
        }
    }
}

/// `sqrt_floor` satisfies its defining inequalities.
pub proof fn lemma_sqrt_floor_bounds(n: nat)
    ensures
        sqrt_floor(n) * sqrt_floor(n) <= n,
        n < (sqrt_floor(n) + 1) * (sqrt_floor(n) + 1),
    decreases n,
{
    if n > 0 {
        let m = (n - 1) as nat;
        lemma_sqrt_floor_bounds(m);
        let s = sqrt_floor(m);
        if (s + 1) * (s + 1) <= n {
            let t = sqrt_floor(n);
            assert(t == s + 1);
            assert(n == (s + 1) * (s + 1));
            assert(n < (t + 1) * (t + 1)) by (nonlinear_arith)
                requires
                    n == (s + 1) * (s + 1),
                    t == s + 1,
                    s >= 0,
            ;
            assert(sqrt_floor(n) * sqrt_floor(n) <= n);
        } else {
            let t = sqrt_floor(n);
            assert(t == s);
            assert(n < (s + 1) * (s + 1));
            assert((t + 1) * (t + 1) == (s + 1) * (s + 1));
            assert(sqrt_floor(n) * sqrt_floor(n) <= n);
        }
    } else {
        let t = sqrt_floor(n);
        assert(t == 0);
        assert(n < (t + 1) * (t + 1)) by (nonlinear_arith)
            requires
                t == 0,
                n == 0,
        ;
        assert(sqrt_floor(n) * sqrt_floor(n) <= n);
    }
}

/// Any `r` within the square-root brackets of `n` is `sqrt_floor(n)`.
pub proof fn lemma_sqrt_floor_unique(n: nat, r: nat)
    requires
        r * r <= n,
        n < (r + 1) * (r + 1),
    ensures
        r == sqrt_floor(n),
{
    lemma_sqrt_floor_bounds(n);
    let s = sqrt_floor(n);
    assert(r == s) by (nonlinear_arith)
        requires
            r * r <= n,
            n < (r + 1) * (r + 1),
            s * s <= n,
            n < (s + 1) * (s + 1),
            r >= 0,
            s >= 0,
    ;
}

/// The square root floor is monotone.
pub proof fn lemma_sqrt_floor_monotonic(a: nat, b: nat)
    requires
        a <= b,
    ensures
        sqrt_floor(a) <= sqrt_floor(b),
{
    lemma_sqrt_floor_bounds(a);
    lemma_sqrt_floor_bounds(b);
    let x = sqrt_floor(a);
    let y = sqrt_floor(b);
    assert(x <= y) by (nonlinear_arith)
        requires
            x * x <= a,
            b < (y + 1) * (y + 1),
            a <= b,
            x >= 0,
            y >= 0,
    ;
}

/// Executable square-root floor over the full `u128` range.
pub fn isqrt(n: u128) -> (r: u64)
    ensures
        r as nat == sqrt_floor(n as nat),
        r as int * r as int <= n as int,
        (n as int) < (r as int + 1) * (r as int + 1),
{
    let mut lo: u64 = 0;
    let mut hi: u64 = u64::MAX;
    proof {
        assert((hi as int + 1) * (hi as int + 1) > n as int) by (nonlinear_arith)
            requires
                hi as int == 0xffff_ffff_ffff_ffff,
                (n as int) < 0x1_0000_0000_0000_0000_0000_0000_0000_0000int,
        ;
    }
    while lo < hi
        invariant
            lo <= hi,
            lo as int * lo as int <= n as int,
            (hi as int + 1) * (hi as int + 1) > n as int,
        decreases hi - lo,
    {
        let mid: u64 = lo + (hi - lo) / 2;
        proof {
            assert((mid as int + 1) * (mid as int + 1) <= u128::MAX as int) by (nonlinear_arith)
                requires 0 <= mid as int + 1 <= 0xffff_ffff_ffff_ffff;
        }
        let next: u64 = mid + 1;
        let sq: u128 = (next as u128) * (next as u128);
        if sq <= n {
            lo = next;
        } else {
            hi = mid;
        }
    }
    proof {
        lemma_sqrt_floor_unique(n as nat, lo as nat);
    }
    lo
}

} // verus!
