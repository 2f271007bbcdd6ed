//! The lighting model: distance to the nearest visible light is quantized
//! to half-tile bands and turned into a capped intensity whose falloff
//! steepens with distance, in three bands.

use vstd::prelude::*;
use vstd::arithmetic::div_mod::*;
use vstd::arithmetic::mul::*;
use crate::fixed::{isqrt, round_to_multiple, sqrt_floor, tdiv};

verus! {

/// The intensity ceiling, slightly above one so that a nearby light can
/// saturate a texel without overflowing the color channel arithmetic.
pub const INTENSITY_CAP: i64 = 75366;

/// Below this distance the falloff is gentlest.
pub const NEAR_LIMIT: i64 = 60 * 65536;

/// Above this distance the falloff is steepest.
pub const FAR_LIMIT: i64 = 100 * 65536;

/// Largest accepted quantization step (half a tile): half the near band.
pub const HALF_LIMIT: i64 = 30 * 65536;

/// Largest accepted light distance.
pub const DIST_LIMIT: i64 = 0x100_0000_0000_0000;

/// `d` rounded to the nearest multiple of `half` (half rounds up): the
/// quantization that produces the soft banding.
pub open spec fn rounded_of(d: int, half: int) -> int {
    ((d + half / 2) / half) * half
}

/// The fixed-point representation of `sqrt(r)` for a fixed-point `rd`.
pub open spec fn fx_sqrt_of(rd: int) -> int {
    sqrt_floor((rd * 65536) as nat) as int
}

/// The fixed-point representation of `r^(3/2)` for a fixed-point `rd`.
pub open spec fn mid_base(rd: int) -> int {
    tdiv(rd * fx_sqrt_of(rd), 65536)
}

/// The uncapped intensity for a quantized distance: `1/sqrt(r)` up close,
/// `1/r^(3/4)` in the middle band, `1/r` far away; a distance that rounds
/// to zero saturates.
pub open spec fn raw_intensity(d: int, half: int) -> int {
    let rd = rounded_of(d, half);
    if rd <= 0 {
        INTENSITY_CAP as int
    } else if d < NEAR_LIMIT {
        sqrt_floor((0x1_0000_0000_0000int / rd) as nat) as int
    } else if d > FAR_LIMIT {
        0x1_0000_0000int / rd
    } else {
        sqrt_floor((0x1_0000_0000_0000int / mid_base(rd)) as nat) as int
    }
}

/// The intensity for a quantized distance, capped.
pub open spec fn intensity_of(d: int, half: int) -> int {
    if raw_intensity(d, half) > INTENSITY_CAP {
        INTENSITY_CAP as int
    } else {
        raw_intensity(d, half)
    }
}

/// Turns the distance to the nearest visible light into a shading
/// intensity: zero when no light is visible, otherwise a capped,
/// band-quantized falloff term.
pub fn light_intensity(dtl: Option<i64>, half_ts_fx: i64) -> (r: i64)
    requires
        1 <= half_ts_fx <= HALF_LIMIT,
        match dtl {
            Some(d) => 0 <= d <= DIST_LIMIT,
            None => true,
        },
    ensures
        r as int == match dtl {
            None => 0int,
            Some(d) => intensity_of(d as int, half_ts_fx as int),
        },
        0 <= r <= INTENSITY_CAP,
{
    let d = match dtl {
        None => {
            return 0;
        },
        Some(d) => d,
    };
    let half = half_ts_fx;
    let rd = round_to_multiple(d, half);
    if rd == 0 {
        return INTENSITY_CAP;
    }
    let raw: i64;
    if d < NEAR_LIMIT {
        let q: i64 = 0x1_0000_0000_0000 / rd;
        proof {
            lemma_div_pos_is_pos(0x1_0000_0000_0000, rd as int);
            crate::fixed::lemma_div_range(0x1_0000_0000_0000, rd as int);
        }
        let root = isqrt(q as u128);
        proof {
            crate::fixed::lemma_sqrt_floor_monotonic(q as nat, 0x1_0000_0000_0000nat);
            assert(sqrt_floor(0x1_0000_0000_0000nat) * sqrt_floor(0x1_0000_0000_0000nat)
                <= 0x1_0000_0000_0000nat) by {
                crate::fixed::lemma_sqrt_floor_bounds(0x1_0000_0000_0000nat);
            }
            assert(sqrt_floor(0x1_0000_0000_0000nat) <= 0x1_0000_0000) by (nonlinear_arith)
                requires
                    sqrt_floor(0x1_0000_0000_0000nat) * sqrt_floor(0x1_0000_0000_0000nat)
                        <= 0x1_0000_0000_0000nat,
            ;
        }
        raw = root as i64;
    } else if d > FAR_LIMIT {
        proof {
            lemma_div_pos_is_pos(0x1_0000_0000, rd as int);
            crate::fixed::lemma_div_range(0x1_0000_0000, rd as int);
        }
        raw = 0x1_0000_0000 / rd;
    } else {
        proof {
            assert(rd > d - half) by {
                let n = d as int + half as int / 2;
                lemma_fundamental_div_mod(n, half as int);
                lemma_mod_bound(n, half as int);
                lemma_mul_is_commutative(half as int, n / half as int);
            }
        }
        let s = isqrt((rd as u128) * 65536);
        proof {
            let rdi = rd as int;
            let si = s as int;
            assert(si * si <= rdi * 65536);
            assert((si + 1) * (si + 1) > rdi * 65536);
            assert(si < 0x80_0000 && si >= 358954) by (nonlinear_arith)
                requires
                    si * si <= rdi * 65536,
                    (si + 1) * (si + 1) > rdi * 65536,
                    1966081 <= rdi <= 0x1000_0000,
                    0 <= si,
            ;
            assert(rdi * si <= 0x1000_0000 * 0x80_0000int && rdi * si >= 1966081 * 358954int)
                by (nonlinear_arith)
                requires
                    1966081 <= rdi <= 0x1000_0000,
                    358954 <= si <= 0x80_0000,
            ;
            lemma_div_pos_is_pos(rdi * si, 65536);
            lemma_div_is_ordered(1966081int * 358954, rdi * si, 65536);
            lemma_div_is_ordered(rdi * si, 0x1000_0000int * 0x80_0000, 65536);
        }
        let m: i64 = (rd * (s as i64)) / 65536;
        let q: i64 = 0x1_0000_0000_0000 / m;
        proof {
            lemma_div_pos_is_pos(0x1_0000_0000_0000, m as int);
            crate::fixed::lemma_div_range(0x1_0000_0000_0000, m as int);
        }
        let root = isqrt(q as u128);
        proof {
            crate::fixed::lemma_sqrt_floor_monotonic(q as nat, 0x1_0000_0000_0000nat);
            crate::fixed::lemma_sqrt_floor_bounds(0x1_0000_0000_0000nat);
            assert(sqrt_floor(0x1_0000_0000_0000nat) <= 0x1_0000_0000) by (nonlinear_arith)
                requires
                    sqrt_floor(0x1_0000_0000_0000nat) * sqrt_floor(0x1_0000_0000_0000nat)
                        <= 0x1_0000_0000_0000nat,
            ;
        }
        raw = root as i64;
    }
    if raw > INTENSITY_CAP {
        INTENSITY_CAP
    } else {
        raw
    }
}

/// Within one falloff band, intensity never increases as the distance to
/// the light grows.
pub proof fn lemma_intensity_monotonic(d1: int, d2: int, half: int)
    requires
        0 <= d1 <= d2,
        1 <= half <= HALF_LIMIT as int,
        (d2 < NEAR_LIMIT as int) || (NEAR_LIMIT as int <= d1 && d2 <= FAR_LIMIT as int) || (
        (FAR_LIMIT as int) < d1),
    ensures
        intensity_of(d1, half) >= intensity_of(d2, half),
{
    let h2 = half / 2;
    let rd1 = rounded_of(d1, half);
    let rd2 = rounded_of(d2, half);
    lemma_div_is_ordered(d1 + h2, d2 + h2, half);
    lemma_mul_inequality((d1 + h2) / half, (d2 + h2) / half, half);
    lemma_div_pos_is_pos(d1 + h2, half);
    lemma_div_pos_is_pos(d2 + h2, half);
    lemma_mul_nonnegative((d1 + h2) / half, half);
    lemma_mul_nonnegative((d2 + h2) / half, half);
    assert(0 <= rd1 <= rd2);
    let raw1 = raw_intensity(d1, half);
    let raw2 = raw_intensity(d2, half);
    if rd1 <= 0 {
        assert(raw1 == INTENSITY_CAP as int);
        lemma_raw_intensity_in_range(d2, half);
    } else {
        if d2 < NEAR_LIMIT as int {
            lemma_div_is_ordered_by_denominator(0x1_0000_0000_0000int, rd1, rd2);
            crate::fixed::lemma_sqrt_floor_monotonic(
                (0x1_0000_0000_0000int / rd2) as nat,
                (0x1_0000_0000_0000int / rd1) as nat,
            );
            lemma_div_pos_is_pos(0x1_0000_0000_0000int, rd1);
            lemma_div_pos_is_pos(0x1_0000_0000_0000int, rd2);
        } else if (FAR_LIMIT as int) < d1 {
            lemma_div_is_ordered_by_denominator(0x1_0000_0000int, rd1, rd2);
        } else {
            assert(NEAR_LIMIT as int <= d1 && d2 <= FAR_LIMIT as int);
            lemma_mid_base_monotonic(rd1, rd2);
            let m1 = mid_base(rd1);
            let m2 = mid_base(rd2);
            assert(rd1 > d1 - half) by {
                let n = d1 + h2;
                lemma_fundamental_div_mod(n, half);
                lemma_mod_bound(n, half);
                lemma_mul_is_commutative(half, n / half);
            }
            lemma_mid_base_lower(rd1);
            lemma_div_is_ordered_by_denominator(0x1_0000_0000_0000int, m1, m2);
            crate::fixed::lemma_sqrt_floor_monotonic(
                (0x1_0000_0000_0000int / m2) as nat,
                (0x1_0000_0000_0000int / m1) as nat,
            );
            lemma_div_pos_is_pos(0x1_0000_0000_0000int, m1);
            lemma_div_pos_is_pos(0x1_0000_0000_0000int, m2);
        }
    }
}

/// The uncapped intensity is never negative.
pub proof fn lemma_raw_intensity_in_range(d: int, half: int)
    requires
        0 <= d,
        1 <= half,
    ensures
        0 <= raw_intensity(d, half),
        intensity_of(d, half) <= INTENSITY_CAP as int,
{
    let rd = rounded_of(d, half);
    if rd <= 0 {
    } else if d < NEAR_LIMIT as int {
    } else if d > FAR_LIMIT as int {
        lemma_div_pos_is_pos(0x1_0000_0000int, rd);
    } else {
    }
}

/// The fixed-point `r^(3/2)` grows with `r`.
proof fn lemma_mid_base_monotonic(rd1: int, rd2: int)
    requires
        0 < rd1 <= rd2,
    ensures
        mid_base(rd1) <= mid_base(rd2),
        0 <= mid_base(rd1),
{
    lemma_mul_inequality(rd1 * 65536, rd2 * 65536, 1);
    lemma_mul_basics(rd1 * 65536);
    lemma_mul_basics(rd2 * 65536);
    lemma_mul_inequality(rd1, rd2, 65536);
    crate::fixed::lemma_sqrt_floor_monotonic((rd1 * 65536) as nat, (rd2 * 65536) as nat);
    let s1 = fx_sqrt_of(rd1);
    let s2 = fx_sqrt_of(rd2);
    assert(0 <= s1 <= s2);
    lemma_mul_nonnegative(rd1, s1);
    lemma_mul_inequality(rd1, rd2, s1);
    lemma_mul_is_commutative(rd1, s1);
    lemma_mul_is_commutative(rd2, s1);
    lemma_mul_inequality(s1, s2, rd2);
    lemma_mul_is_commutative(rd2, s2);
    lemma_mul_is_commutative(s1, rd2);
    lemma_div_is_ordered(rd1 * s1, rd2 * s2, 65536);
    lemma_div_pos_is_pos(rd1 * s1, 65536);
}

/// In the middle band the fixed-point `r^(3/2)` is at least one.
proof fn lemma_mid_base_lower(rd: int)
    requires
        1966081 <= rd,
    ensures
        1 <= mid_base(rd),
{
    let s = fx_sqrt_of(rd);
    crate::fixed::lemma_sqrt_floor_bounds((rd * 65536) as nat);
    assert(s >= 358954) by (nonlinear_arith)
        requires
            (s + 1) * (s + 1) > rd * 65536,
            rd >= 1966081,
            s >= 0,
    ;
    assert(rd * s >= 65536) by (nonlinear_arith)
        requires
            rd >= 1966081,
            s >= 358954,
    ;
    lemma_div_is_ordered(65536, rd * s, 65536);
    lemma_div_by_self(65536);
}

} // verus!
