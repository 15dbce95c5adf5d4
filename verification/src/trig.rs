//! Fixed-point numeric kernels: integer square root and approximations of
//! sine, cosine and atan2 over angle units of about one nanoradian.
//!
//! `TAU_UNITS` stands for one full turn, `PI_UNITS` for half a turn, and a
//! unit vector component is scaled by `DIR_ONE`.

use vstd::prelude::*;

verus! {

/// One full turn (2π) in angle units.
pub const TAU_UNITS: i64 = 6_283_185_308;

/// Half a turn (π) in angle units; exactly `TAU_UNITS / 2`.
pub const PI_UNITS: i64 = 3_141_592_654;

/// A quarter turn (π/2) in angle units; exactly `PI_UNITS / 2`.
pub const HALF_PI_UNITS: i64 = 1_570_796_327;

/// π/4 in angle units, rounded down.
pub const QUARTER_PI_UNITS: i64 = 785_398_163;

/// Correction coefficient (about 0.273 rad) of the arctangent approximation.
pub const ATAN_COEFF: i64 = 273_000_000;

/// Scale of a unit direction-vector component.
pub const DIR_ONE: i64 = 65536;

/// `r` is the square root of `n`, rounded down.
pub open spec fn is_sqrt_floor(n: int, r: int) -> bool {
    0 <= r && r * r <= n && n < (r + 1) * (r + 1)
}

/// The square root of `n`, rounded down (meaningful for `n >= 0`).
pub open spec fn sqrt_floor(n: int) -> int {
    choose|r: int| is_sqrt_floor(n, r)
}

pub proof fn lemma_sqrt_floor_exists(n: int)
    requires
        n >= 0,
    ensures
        is_sqrt_floor(n, sqrt_floor(n)),
    decreases n,
{
    if n == 0 {
        assert(is_sqrt_floor(0, 0));
    } else {
        lemma_sqrt_floor_exists(n - 1);
        let r = sqrt_floor(n - 1);
        if n < (r + 1) * (r + 1) {
            assert(is_sqrt_floor(n, r));
        } else {
            assert((r + 1) * (r + 1) < (r + 2) * (r + 2)) by (nonlinear_arith)
                requires
                    r >= 0,
            ;
            assert(is_sqrt_floor(n, r + 1));
        }
    }
    assert(exists|r: int| is_sqrt_floor(n, r));
}

pub proof fn lemma_sqrt_floor_unique(n: int, r: int)
    requires
        is_sqrt_floor(n, r),
    ensures
        r == sqrt_floor(n),
{
    lemma_sqrt_floor_exists(n);
    let s = sqrt_floor(n);
    if r < s {
        assert((r + 1) * (r + 1) <= s * s) by (nonlinear_arith)
            requires
                0 <= r + 1 <= s,
        ;
    }
    if s < r {
        assert((s + 1) * (s + 1) <= r * r) by (nonlinear_arith)
            requires
                0 <= s + 1 <= r,
        ;
    }
}

/// Both factors bounded in magnitude bound the product's magnitude.
pub proof fn lemma_mul_bounds(a: int, b: int, ca: int, cb: int)
    by (nonlinear_arith)
    requires
        -ca <= a <= ca,
        -cb <= b <= cb,
        0 <= ca,
        0 <= cb,
    ensures
        -(ca * cb) <= a * b <= ca * cb,
{
}

/// The product `x(m−x)` is nonnegative and at most `m²/4` on `[0, m]`.
proof fn lemma_arch_product(x: int, m: int)
    by (nonlinear_arith)
    requires
        0 <= x <= m,
    ensures
        0 <= x * (m - x),
        4 * (x * (m - x)) <= m * m,
{
}

/// Sine on the first half turn, by the classical rational approximation
/// `sin(x) ~ 16x(π−x) / (5π² − 4x(π−x))`, scaled to `DIR_ONE`
/// (meaningful for `0 <= x <= PI_UNITS`).
pub open spec fn spec_sin_half(x: int) -> int {
    (16 * (x * (PI_UNITS - x)) * DIR_ONE) / (
    5 * PI_UNITS * PI_UNITS - 4 * (x * (PI_UNITS - x)))
}

/// Sine over a full turn, scaled to `DIR_ONE` (meaningful for
/// `0 <= x < TAU_UNITS`).
pub open spec fn spec_sin_units(x: int) -> int {
    if x <= PI_UNITS {
        spec_sin_half(x)
    } else {
        -spec_sin_half(x - PI_UNITS)
    }
}

/// Cosine over a full turn: sine shifted by a quarter turn.
pub open spec fn spec_cos_units(x: int) -> int {
    if x + HALF_PI_UNITS < TAU_UNITS {
        spec_sin_units(x + HALF_PI_UNITS)
    } else {
        spec_sin_units(x + HALF_PI_UNITS - TAU_UNITS)
    }
}

proof fn lemma_sin_half_bounds(x: int)
    requires
        0 <= x <= PI_UNITS,
    ensures
        0 <= spec_sin_half(x) <= DIR_ONE,
{
    let p = x * (PI_UNITS - x);
    lemma_arch_product(x, PI_UNITS as int);
    let pp = (PI_UNITS as int) * (PI_UNITS as int);
    lemma_mul_bounds(PI_UNITS as int, PI_UNITS as int, PI_UNITS as int, PI_UNITS as int);
    assert(pp > 0) by (nonlinear_arith)
        requires
            PI_UNITS > 0,
            pp == (PI_UNITS as int) * (PI_UNITS as int),
    ;
    assert(5 * (PI_UNITS as int) * (PI_UNITS as int) == 5 * pp) by (nonlinear_arith)
        requires
            pp == (PI_UNITS as int) * (PI_UNITS as int),
    ;
    let num = 16 * p * DIR_ONE;
    let den = 5 * pp - 4 * p;
    assert(den >= 4 * pp);
    assert(num >= 0) by (nonlinear_arith)
        requires
            p >= 0,
            num == 16 * p * DIR_ONE,
            DIR_ONE > 0,
    ;
    vstd::arithmetic::div_mod::lemma_div_pos_is_pos(num, den);
    assert(num <= den * DIR_ONE) by (nonlinear_arith)
        requires
            4 * p <= pp,
            den == 5 * pp - 4 * p,
            num == 16 * p * DIR_ONE,
            DIR_ONE > 0,
    ;
    vstd::arithmetic::div_mod::lemma_div_is_ordered(num, den * DIR_ONE, den);
    vstd::arithmetic::div_mod::lemma_div_multiples_vanish(DIR_ONE as int, den);
}

pub proof fn lemma_sin_units_bounds(x: int)
    requires
        0 <= x < TAU_UNITS,
    ensures
        -DIR_ONE <= spec_sin_units(x) <= DIR_ONE,
{
    if x <= PI_UNITS {
        lemma_sin_half_bounds(x);
    } else {
        lemma_sin_half_bounds(x - PI_UNITS);
    }
}

/// Sine of an angle in `[0, TAU_UNITS)`, scaled to `DIR_ONE`.
pub fn sin_units(x: i64) -> (r: i64)
    requires
        0 <= x < TAU_UNITS,
    ensures
        r == spec_sin_units(x as int),
        -DIR_ONE <= r <= DIR_ONE,
{
    proof {
        lemma_sin_units_bounds(x as int);
    }
    if x <= PI_UNITS {
        sin_half(x)
    } else {
        -sin_half(x - PI_UNITS)
    }
}

fn sin_half(x: i64) -> (r: i64)
    requires
        0 <= x <= PI_UNITS,
    ensures
        r == spec_sin_half(x as int),
        0 <= r <= DIR_ONE,
{
    proof {
        lemma_sin_half_bounds(x as int);
    }
    let xw: i128 = x as i128;
    let rest: i128 = (PI_UNITS - x) as i128;
    proof {
        lemma_mul_bounds(xw as int, rest as int, 0x1_0000_0000, 0x1_0000_0000);
    }
    let p: i128 = xw * rest;
    proof {
        lemma_arch_product(x as int, PI_UNITS as int);
        lemma_mul_bounds(16 * (p as int), DIR_ONE as int, 0x100_0000_0000_0000_0000, 0x1_0000);
        lemma_mul_bounds(
            5 * (PI_UNITS as int),
            PI_UNITS as int,
            0x5_0000_0000,
            0x1_0000_0000,
        );
        lemma_mul_bounds(PI_UNITS as int, PI_UNITS as int, PI_UNITS as int, PI_UNITS as int);
        assert((PI_UNITS as int) * (PI_UNITS as int) > 0) by (nonlinear_arith)
            requires
                PI_UNITS > 0,
        ;
        assert(5 * (PI_UNITS as int) * (PI_UNITS as int) == 5 * ((PI_UNITS as int) * (
        PI_UNITS as int))) by (nonlinear_arith);
    }
    let num: i128 = 16 * p * (DIR_ONE as i128);
    let den: i128 = 5 * (PI_UNITS as i128) * (PI_UNITS as i128) - 4 * p;
    (num / den) as i64
}

/// Cosine of an angle in `[0, TAU_UNITS)`, scaled to `DIR_ONE`.
pub fn cos_units(x: i64) -> (r: i64)
    requires
        0 <= x < TAU_UNITS,
    ensures
        r == spec_cos_units(x as int),
        -DIR_ONE <= r <= DIR_ONE,
{
    let y = if x + HALF_PI_UNITS < TAU_UNITS {
        x + HALF_PI_UNITS
    } else {
        x + HALF_PI_UNITS - TAU_UNITS
    };
    proof {
        lemma_sin_units_bounds(y as int);
    }
    sin_units(y)
}

/// Arctangent on `[0, 1]` (the argument scaled by `DIR_ONE`), by the
/// quadratic approximation `atan(z) ~ (π/4)z + 0.273·z(1−z)`, in angle units.
pub open spec fn spec_atan_poly(z: int) -> int {
    (QUARTER_PI_UNITS * z) / (DIR_ONE as int) + (ATAN_COEFF * z * (DIR_ONE - z)) / (
    DIR_ONE * DIR_ONE)
}

proof fn lemma_atan_poly_bounds(z: int)
    requires
        0 <= z <= DIR_ONE,
    ensures
        0 <= spec_atan_poly(z) <= HALF_PI_UNITS,
{
    let t1 = (QUARTER_PI_UNITS * z) / (DIR_ONE as int);
    let t2 = (ATAN_COEFF * z * (DIR_ONE - z)) / (DIR_ONE * DIR_ONE);
    assert(0 <= QUARTER_PI_UNITS * z <= QUARTER_PI_UNITS * DIR_ONE) by (nonlinear_arith)
        requires
            0 <= z <= DIR_ONE,
            QUARTER_PI_UNITS > 0,
    ;
    vstd::arithmetic::div_mod::lemma_div_pos_is_pos(QUARTER_PI_UNITS * z, DIR_ONE as int);
    vstd::arithmetic::div_mod::lemma_div_is_ordered(
        QUARTER_PI_UNITS * z,
        QUARTER_PI_UNITS * DIR_ONE,
        DIR_ONE as int,
    );
    vstd::arithmetic::div_mod::lemma_div_by_multiple(QUARTER_PI_UNITS as int, DIR_ONE as int);
    assert(t1 <= QUARTER_PI_UNITS);
    assert(0 <= ATAN_COEFF * z * (DIR_ONE - z) <= ATAN_COEFF * (DIR_ONE * DIR_ONE))
        by (nonlinear_arith)
        requires
            0 <= z <= DIR_ONE,
            ATAN_COEFF > 0,
    ;
    assert((DIR_ONE as int) * (DIR_ONE as int) > 0) by (nonlinear_arith)
        requires
            DIR_ONE > 0,
    ;
    vstd::arithmetic::div_mod::lemma_div_pos_is_pos(
        ATAN_COEFF * z * (DIR_ONE - z),
        DIR_ONE * DIR_ONE,
    );
    vstd::arithmetic::div_mod::lemma_div_is_ordered(
        ATAN_COEFF * z * (DIR_ONE - z),
        ATAN_COEFF * (DIR_ONE * DIR_ONE),
        DIR_ONE * DIR_ONE,
    );
    vstd::arithmetic::div_mod::lemma_div_by_multiple(ATAN_COEFF as int, DIR_ONE * DIR_ONE);
    assert(t2 <= ATAN_COEFF);
}

fn atan_poly(z: i64) -> (r: i64)
    requires
        0 <= z <= DIR_ONE,
    ensures
        r == spec_atan_poly(z as int),
        0 <= r <= HALF_PI_UNITS,
{
    proof {
        lemma_atan_poly_bounds(z as int);
        lemma_mul_bounds(QUARTER_PI_UNITS as int, z as int, 0x4000_0000, 0x1_0000);
        lemma_mul_bounds(ATAN_COEFF as int, z as int, 0x4000_0000, 0x1_0000);
        lemma_mul_bounds(
            (ATAN_COEFF as int) * (z as int),
            DIR_ONE - z,
            0x4000_0000_0000,
            0x1_0000,
        );
        lemma_mul_bounds(DIR_ONE as int, DIR_ONE as int, 0x1_0000, 0x1_0000);
        assert((DIR_ONE as int) * (DIR_ONE as int) > 0) by (nonlinear_arith)
            requires
                DIR_ONE > 0,
        ;
    }
    let t1: i128 = ((QUARTER_PI_UNITS as i128) * (z as i128)) / (DIR_ONE as i128);
    let t2: i128 = ((ATAN_COEFF as i128) * (z as i128) * ((DIR_ONE - z) as i128)) / (
    (DIR_ONE as i128) * (DIR_ONE as i128));
    (t1 + t2) as i64
}

/// Largest coordinate difference that `atan2_units` accepts.
pub const ATAN2_MAX_ARG: i64 = 0x40_0000_0000;

/// Angle of the first-quadrant point `(ax, ay)` in `[0, HALF_PI_UNITS]`
/// (meaningful for `0 <= ax`, `0 <= ay`, not both zero).
pub open spec fn spec_atan2_first_quadrant(ay: int, ax: int) -> int {
    if ay <= ax {
        spec_atan_poly((ay * DIR_ONE) / ax)
    } else {
        HALF_PI_UNITS - spec_atan_poly((ax * DIR_ONE) / ay)
    }
}

/// Angle of the point `(x, y)`, normalized into `[0, TAU_UNITS)`.
pub open spec fn spec_atan2_units(y: int, x: int) -> int {
    let ax = if x < 0 { -x } else { x };
    let ay = if y < 0 { -y } else { y };
    if ax == 0 && ay == 0 {
        0
    } else {
        let a1 = spec_atan2_first_quadrant(ay, ax);
        if x >= 0 && y >= 0 {
            a1
        } else if x < 0 && y >= 0 {
            PI_UNITS - a1
        } else if x < 0 {
            PI_UNITS + a1
        } else if a1 == 0 {
            0
        } else {
            TAU_UNITS - a1
        }
    }
}

proof fn lemma_atan2_first_quadrant_bounds(ay: int, ax: int)
    requires
        0 <= ax,
        0 <= ay,
        ax != 0 || ay != 0,
    ensures
        0 <= spec_atan2_first_quadrant(ay, ax) <= HALF_PI_UNITS,
{
    if ay <= ax {
        let z = (ay * DIR_ONE) / ax;
        assert(0 <= ay * DIR_ONE <= ax * DIR_ONE) by (nonlinear_arith)
            requires
                0 <= ay <= ax,
                DIR_ONE > 0,
        ;
        vstd::arithmetic::div_mod::lemma_div_pos_is_pos(ay * DIR_ONE, ax);
        vstd::arithmetic::div_mod::lemma_div_is_ordered(ay * DIR_ONE, ax * DIR_ONE, ax);
        vstd::arithmetic::div_mod::lemma_div_multiples_vanish(DIR_ONE as int, ax);
        lemma_atan_poly_bounds(z);
    } else {
        let z = (ax * DIR_ONE) / ay;
        assert(0 <= ax * DIR_ONE <= ay * DIR_ONE) by (nonlinear_arith)
            requires
                0 <= ax <= ay,
                DIR_ONE > 0,
        ;
        vstd::arithmetic::div_mod::lemma_div_pos_is_pos(ax * DIR_ONE, ay);
        vstd::arithmetic::div_mod::lemma_div_is_ordered(ax * DIR_ONE, ay * DIR_ONE, ay);
        vstd::arithmetic::div_mod::lemma_div_multiples_vanish(DIR_ONE as int, ay);
        lemma_atan_poly_bounds(z);
    }
}

pub proof fn lemma_atan2_units_bounds(y: int, x: int)
    ensures
        0 <= spec_atan2_units(y, x) < TAU_UNITS,
{
    let ax = if x < 0 { -x } else { x };
    let ay = if y < 0 { -y } else { y };
    if ax != 0 || ay != 0 {
        lemma_atan2_first_quadrant_bounds(ay, ax);
    }
}

/// Angle of the point `(x, y)` in `[0, TAU_UNITS)`; `0` for the origin.
pub fn atan2_units(y: i64, x: i64) -> (r: i64)
    requires
        -ATAN2_MAX_ARG <= y <= ATAN2_MAX_ARG,
        -ATAN2_MAX_ARG <= x <= ATAN2_MAX_ARG,
    ensures
        r == spec_atan2_units(y as int, x as int),
        0 <= r < TAU_UNITS,
{
    proof {
        lemma_atan2_units_bounds(y as int, x as int);
    }
    let ax = if x < 0 { -x } else { x };
    let ay = if y < 0 { -y } else { y };
    if ax == 0 && ay == 0 {
        return 0;
    }
    proof {
        lemma_atan2_first_quadrant_bounds(ay as int, ax as int);
    }
    let a1 = if ay <= ax {
        proof {
            assert(0 <= (ay as i128) * (DIR_ONE as i128) <= (ax as i128) * (DIR_ONE as i128))
                by (nonlinear_arith)
                requires
                    0 <= ay <= ax,
                    DIR_ONE > 0,
            ;
            vstd::arithmetic::div_mod::lemma_div_pos_is_pos(ay as int * DIR_ONE, ax as int);
            vstd::arithmetic::div_mod::lemma_div_is_ordered(
                ay as int * DIR_ONE,
                ax as int * DIR_ONE,
                ax as int,
            );
            vstd::arithmetic::div_mod::lemma_div_multiples_vanish(DIR_ONE as int, ax as int);
        }
        let z = (((ay as i128) * (DIR_ONE as i128)) / (ax as i128)) as i64;
        atan_poly(z)
    } else {
        proof {
            assert(0 <= (ax as i128) * (DIR_ONE as i128) <= (ay as i128) * (DIR_ONE as i128))
                by (nonlinear_arith)
                requires
                    0 <= ax <= ay,
                    DIR_ONE > 0,
            ;
            vstd::arithmetic::div_mod::lemma_div_pos_is_pos(ax as int * DIR_ONE, ay as int);
            vstd::arithmetic::div_mod::lemma_div_is_ordered(
                ax as int * DIR_ONE,
                ay as int * DIR_ONE,
                ay as int,
            );
            vstd::arithmetic::div_mod::lemma_div_multiples_vanish(DIR_ONE as int, ay as int);
        }
        let z = (((ax as i128) * (DIR_ONE as i128)) / (ay as i128)) as i64;
        HALF_PI_UNITS - atan_poly(z)
    };
    if x >= 0 && y >= 0 {
        a1
    } else if x < 0 && y >= 0 {
        PI_UNITS - a1
    } else if x < 0 {
        PI_UNITS + a1
    } else if a1 == 0 {
        0
    } else {
        TAU_UNITS - a1
    }
}

/// A bound on the radicand bounds the root.
pub proof fn lemma_sqrt_floor_le(n: int, b: int)
    requires
        0 <= n,
        0 <= b,
        n < (b + 1) * (b + 1),
    ensures
        0 <= sqrt_floor(n) <= b,
{
    lemma_sqrt_floor_exists(n);
    let s = sqrt_floor(n);
    if s > b {
        assert((b + 1) * (b + 1) <= s * s) by (nonlinear_arith)
            requires
                0 <= b + 1 <= s,
        ;
    }
}

/// Quotient of `a` by `b`, rounded toward negative infinity (meaningful for
/// `b != 0`); for a positive divisor this is Euclidean division.
pub open spec fn spec_div_floor(a: int, b: int) -> int {
    if b < 0 {
        (-a) / (-b)
    } else {
        a / b
    }
}

/// The quotient by a positive divisor lies between the dividend and zero.
pub proof fn lemma_div_range(x: int, k: int)
    by (nonlinear_arith)
    requires
        k >= 1,
    ensures
        x >= 0 ==> 0 <= x / k <= x,
        x < 0 ==> x <= x / k <= 0,
{
}

/// Floor division of `n` by a positive divisor `d`.
pub fn div_floor(n: i128, d: i128) -> (q: i128)
    requires
        0 < d,
        -0x1000_0000_0000_0000_0000_0000_0000 <= n <= 0x1000_0000_0000_0000_0000_0000_0000,
    ensures
        q == (n as int) / (d as int),
{
    if n >= 0 {
        n / d
    } else {
        let m = -n;
        let c = (m - 1) / d + 1;
        proof {
            let mi = m as int;
            let di = d as int;
            let qm = mi / di;
            let rm = mi % di;
            vstd::arithmetic::div_mod::lemma_fundamental_div_mod(mi, di);
            vstd::arithmetic::div_mod::lemma_mod_division_less_than_divisor(mi, di);
            vstd::arithmetic::div_mod::lemma_div_pos_is_pos(mi, di);
            assert((qm - 1) * di == di * qm - di && (-qm) * di == -(di * qm) && (-qm - 1) * di
                == -(di * qm) - di && qm * di == di * qm) by (nonlinear_arith);
            if rm == 0 {
                vstd::arithmetic::div_mod::lemma_fundamental_div_mod_converse(
                    mi - 1,
                    di,
                    qm - 1,
                    di - 1,
                );
                vstd::arithmetic::div_mod::lemma_fundamental_div_mod_converse(-mi, di, -qm, 0);
            } else {
                vstd::arithmetic::div_mod::lemma_fundamental_div_mod_converse(
                    mi - 1,
                    di,
                    qm,
                    rm - 1,
                );
                vstd::arithmetic::div_mod::lemma_fundamental_div_mod_converse(
                    -mi,
                    di,
                    -qm - 1,
                    di - rm,
                );
            }
        }
        -c
    }
}

/// Integer square root by binary search, rounded down.
pub fn isqrt(n: u128) -> (r: u128)
    ensures
        r as int == sqrt_floor(n as int),
        is_sqrt_floor(n as int, r as int),
        r < 0x1_0000_0000_0000_0000,
{
    let mut lo: u128 = 0;
    let mut hi: u128 = 0x1_0000_0000_0000_0000;
    while lo + 1 < hi
        invariant
            lo < hi <= 0x1_0000_0000_0000_0000,
            (lo as int) * (lo as int) <= n as int,
            (n as int) < (hi as int) * (hi as int),
        decreases hi - lo,
    {
        let mid = lo + (hi - lo) / 2;
        assert(lo < mid < hi);
        assert((mid as int) * (mid as int) <= 0xffff_ffff_ffff_ffff * 0xffff_ffff_ffff_ffff)
            by (nonlinear_arith)
            requires
                0 <= mid <= 0xffff_ffff_ffff_ffff,
        ;
        if mid * mid <= n {
            lo = mid;
        } else {
            hi = mid;
        }
    }
    proof {
        lemma_sqrt_floor_unique(n as int, lo as int);
    }
    lo
}

} // verus!
