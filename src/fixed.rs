//! Fixed-point arithmetic for the flock: three-component integer vectors,
//! saturating addition, division rounded toward zero, and rescaling a vector
//! to a given length.
use vstd::prelude::*;

verus! {

/// Fixed-point units per world unit (lengths), and milliseconds per second.
pub const SCALE: i64 = 1000;

/// Largest magnitude of a stored coordinate; sums saturate at this bound.
pub const COORD_LIMIT: i64 = 0x4000_0000;

/// A three-component vector in fixed-point units.
#[derive(Clone, Copy, Debug, PartialEq, Eq, Structural)]
pub struct Vec3 {
    pub x: i64,
    pub y: i64,
    pub z: i64,
}

pub open spec fn in_limit(c: int) -> bool {
    -COORD_LIMIT <= c <= COORD_LIMIT
}

/// Every component lies within `COORD_LIMIT`.
pub open spec fn wf_vec(v: Vec3) -> bool {
    in_limit(v.x as int) && in_limit(v.y as int) && in_limit(v.z as int)
}

pub open spec fn is_zero(v: Vec3) -> bool {
    v.x == 0 && v.y == 0 && v.z == 0
}

/// The squared Euclidean length.
pub open spec fn norm2(v: Vec3) -> int {
    (v.x as int) * (v.x as int) + (v.y as int) * (v.y as int) + (v.z as int) * (v.z as int)
}

pub open spec fn diff(a: Vec3, b: Vec3) -> Vec3 {
    Vec3 { x: (a.x - b.x) as i64, y: (a.y - b.y) as i64, z: (a.z - b.z) as i64 }
}

pub open spec fn neg(a: Vec3) -> Vec3 {
    Vec3 { x: (-a.x) as i64, y: (-a.y) as i64, z: (-a.z) as i64 }
}

/// `c` clamped into `[-COORD_LIMIT, COORD_LIMIT]`.
pub open spec fn sat(c: int) -> int {
    if c < -COORD_LIMIT {
        -COORD_LIMIT as int
    } else if c > COORD_LIMIT {
        COORD_LIMIT as int
    } else {
        c
    }
}

/// `v + (dx, dy, dz)`, each component saturated.
pub open spec fn sat_add(v: Vec3, dx: int, dy: int, dz: int) -> Vec3 {
    Vec3 { x: sat(v.x + dx) as i64, y: sat(v.y + dy) as i64, z: sat(v.z + dz) as i64 }
}

/// Division rounded toward zero, as Rust's `/` on signed integers.
pub open spec fn div_trunc(a: int, b: int) -> int {
    if a >= 0 {
        a / b
    } else {
        -((-a) / b)
    }
}

/// `r` is the square root of `n` rounded up.
pub open spec fn is_ceil_sqrt(n: int, r: int) -> bool {
    r >= 0 && r * r >= n && (r == 0 || (r - 1) * (r - 1) < n)
}

pub open spec fn ceil_sqrt(n: int) -> int {
    choose|r: int| is_ceil_sqrt(n, r)
}

/// The Euclidean length, rounded up.
pub open spec fn length(v: Vec3) -> int {
    ceil_sqrt(norm2(v))
}

/// One component of `v * num / (den * |v|)`, where `len` is `|v|`.
pub open spec fn scale_c(c: int, len: int, num: int, den: int) -> int {
    div_trunc(c * num, len * den)
}

pub proof fn lemma_div_trunc_bound(a: int, b: int)
    requires
        b > 0,
    ensures
        (a >= 0 ==> 0 <= div_trunc(a, b) <= a),
        (a < 0 ==> a <= div_trunc(a, b) <= 0),
        (if a >= 0 { div_trunc(a, b) } else { -div_trunc(a, b) }) * b <= (if a >= 0 { a } else { -a }),
        div_trunc(-a, b) == -div_trunc(a, b),
{
    let m = if a >= 0 { a } else { -a };
    assert((m / b) * b <= m) by (nonlinear_arith)
        requires m >= 0, b > 0;
    assert(m / b <= m) by (nonlinear_arith)
        requires m >= 0, b > 0;
    assert(0 <= m / b) by (nonlinear_arith)
        requires m >= 0, b > 0;
    if a == 0 {
        assert(0int / b == 0);
    }
}

pub proof fn lemma_square_mono(a: int, b: int)
    requires
        0 <= a <= b,
    ensures
        a * a <= b * b,
{
    assert(a * a <= b * b) by (nonlinear_arith)
        requires 0 <= a <= b;
}

pub proof fn lemma_ceil_sqrt_unique(n: int, r: int)
    requires
        is_ceil_sqrt(n, r),
    ensures
        ceil_sqrt(n) == r,
{
    let c = ceil_sqrt(n);
    assert(is_ceil_sqrt(n, c));
    if c < r {
        lemma_square_mono(c, r - 1);
    } else if r < c {
        lemma_square_mono(r, c - 1);
    }
}

/// `ceil_sqrt(n)` is zero exactly when `n` is, and bounds `n` from above.
pub proof fn lemma_ceil_sqrt_props(n: int)
    requires
        n >= 0,
        exists|r: int| is_ceil_sqrt(n, r),
    ensures
        is_ceil_sqrt(n, ceil_sqrt(n)),
        (ceil_sqrt(n) == 0) == (n == 0),
{
    let c = ceil_sqrt(n);
    if n > 0 && c == 0 {
        assert(c * c == 0);
    }
    if n == 0 && c > 0 {
        lemma_square_mono(0, c - 1);
    }
}

/// The square root of `n`, rounded up.
pub fn ceil_sqrt_u64(n: u64) -> (r: u64)
    ensures
        r as int == ceil_sqrt(n as int),
        is_ceil_sqrt(n as int, r as int),
        r <= 0x1_0000_0000,
{
    let mut lo: u64 = 0;
    let mut hi: u64 = 0x1_0000_0000;
    assert((hi as int) * (hi as int) == 0x1_0000_0000_0000_0000) by (nonlinear_arith)
        requires hi == 0x1_0000_0000;
    while hi - lo > 1
        invariant
            lo < hi <= 0x1_0000_0000,
            (lo as int) * (lo as int) <= n,
            (n as int) < (hi as int) * (hi as int),
        decreases hi - lo,
    {
        let mid: u64 = lo + (hi - lo) / 2;
        assert((mid as int) * (mid as int) <= 0x1_0000_0000_0000_0000) by (nonlinear_arith)
            requires mid <= 0x1_0000_0000;
        let sq: u128 = (mid as u128) * (mid as u128);
        if sq <= n as u128 {
            lo = mid;
        } else {
            hi = mid;
        }
    }
    assert((lo as int) * (lo as int) <= 0x1_0000_0000_0000_0000) by (nonlinear_arith)
        requires lo <= 0x1_0000_0000;
    let sq: u128 = (lo as u128) * (lo as u128);
    let r: u64 = if sq == n as u128 {
        proof {
            if lo > 0 {
                assert(((lo - 1) as int) * ((lo - 1) as int) < (lo as int) * (lo as int)) by (nonlinear_arith)
                    requires lo > 0;
            }
        }
        lo
    } else {
        lo + 1
    };
    proof {
        lemma_ceil_sqrt_unique(n as int, r as int);
    }
    r
}

/// `a / b` rounded toward zero.
pub fn div_trunc_i128(a: i128, b: i128) -> (r: i128)
    requires
        b > 0,
        a > i128::MIN,
    ensures
        r == div_trunc(a as int, b as int),
{
    if a >= 0 {
        a / b
    } else {
        let m: i128 = -a;
        let q: i128 = m / b;
        proof {
            lemma_div_trunc_bound(a as int, b as int);
        }
        -q
    }
}

/// `c` clamped into `[-COORD_LIMIT, COORD_LIMIT]`.
pub fn sat_i128(c: i128) -> (r: i64)
    ensures
        r == sat(c as int),
        in_limit(r as int),
{
    if c < -(COORD_LIMIT as i128) {
        -COORD_LIMIT
    } else if c > COORD_LIMIT as i128 {
        COORD_LIMIT
    } else {
        c as i64
    }
}

/// `v + (dx, dy, dz)` with each component saturated.
pub fn sat_add_exec(v: Vec3, dx: i128, dy: i128, dz: i128) -> (r: Vec3)
    requires
        -0x1_0000_0000_0000_0000_0000_0000 <= dx <= 0x1_0000_0000_0000_0000_0000_0000,
        -0x1_0000_0000_0000_0000_0000_0000 <= dy <= 0x1_0000_0000_0000_0000_0000_0000,
        -0x1_0000_0000_0000_0000_0000_0000 <= dz <= 0x1_0000_0000_0000_0000_0000_0000,
    ensures
        r == sat_add(v, dx as int, dy as int, dz as int),
        wf_vec(r),
{
    Vec3 {
        x: sat_i128(v.x as i128 + dx),
        y: sat_i128(v.y as i128 + dy),
        z: sat_i128(v.z as i128 + dz),
    }
}

/// Components bounded by `b` in magnitude.
pub open spec fn bounded(v: Vec3, b: int) -> bool {
    -b <= v.x <= b && -b <= v.y <= b && -b <= v.z <= b
}

pub proof fn lemma_norm2_bound(v: Vec3)
    requires
        bounded(v, 0x8000_0000),
    ensures
        0 <= norm2(v) < 0x1_0000_0000_0000_0000,
        0 <= (v.x as int) * (v.x as int) <= 0x4000_0000_0000_0000,
        0 <= (v.y as int) * (v.y as int) <= 0x4000_0000_0000_0000,
        0 <= (v.z as int) * (v.z as int) <= 0x4000_0000_0000_0000,
        (norm2(v) == 0) == is_zero(v),
{
    let x = v.x as int;
    let y = v.y as int;
    let z = v.z as int;
    assert(0 <= x * x <= 0x4000_0000_0000_0000) by (nonlinear_arith)
        requires -0x8000_0000 <= x <= 0x8000_0000;
    assert(0 <= y * y <= 0x4000_0000_0000_0000) by (nonlinear_arith)
        requires -0x8000_0000 <= y <= 0x8000_0000;
    assert(0 <= z * z <= 0x4000_0000_0000_0000) by (nonlinear_arith)
        requires -0x8000_0000 <= z <= 0x8000_0000;
    assert((x * x == 0) == (x == 0)) by (nonlinear_arith);
    assert((y * y == 0) == (y == 0)) by (nonlinear_arith);
    assert((z * z == 0) == (z == 0)) by (nonlinear_arith);
}

/// The squared length of a vector whose components are within `2^31`.
pub fn norm2_exec(v: Vec3) -> (r: u64)
    requires
        bounded(v, 0x8000_0000),
    ensures
        r as int == norm2(v),
{
    proof {
        lemma_norm2_bound(v);
    }
    let x = v.x as i128;
    let y = v.y as i128;
    let z = v.z as i128;
    (x * x + y * y + z * z) as u64
}

/// The length of a vector whose components are within `2^31`, rounded up.
pub fn length_exec(v: Vec3) -> (r: u64)
    requires
        bounded(v, 0x8000_0000),
    ensures
        r as int == length(v),
        is_ceil_sqrt(norm2(v), r as int),
        (r == 0) == is_zero(v),
        r <= 0x1_0000_0000,
{
    let n = norm2_exec(v);
    proof {
        lemma_norm2_bound(v);
    }
    let r = ceil_sqrt_u64(n);
    proof {
        assert(is_ceil_sqrt(n as int, r as int));
        lemma_ceil_sqrt_props(n as int);
    }
    r
}

/// One component of `v` rescaled to length `num / den`, where `len` is the
/// (rounded-up) length of `v`.
pub fn scale_c_exec(c: i64, len: u64, num: i128, den: i128) -> (r: i128)
    requires
        -0x8000_0000 <= c <= 0x8000_0000,
        0 < len <= 0x1_0000_0000,
        0 <= num <= 0x1_0000_0000_0000_0000,
        0 < den <= 0x1_0000_0000,
    ensures
        r == scale_c(c as int, len as int, num as int, den as int),
        -(0x8000_0000 * 0x1_0000_0000_0000_0000) <= r <= 0x8000_0000 * 0x1_0000_0000_0000_0000,
{
    proof {
        let ci = c as int;
        let ni = num as int;
        assert(-(0x8000_0000 * 0x1_0000_0000_0000_0000) <= ci * ni <= 0x8000_0000
            * 0x1_0000_0000_0000_0000) by (nonlinear_arith)
            requires -0x8000_0000 <= ci <= 0x8000_0000, 0 <= ni <= 0x1_0000_0000_0000_0000;
        assert(0 < (len as int) * (den as int) <= 0x1_0000_0000 * 0x1_0000_0000) by (nonlinear_arith)
            requires 0 < len <= 0x1_0000_0000, 0 < den <= 0x1_0000_0000;
    }
    let p: i128 = c as i128 * num;
    let q: i128 = len as i128 * den;
    proof {
        lemma_div_trunc_bound(p as int, q as int);
    }
    div_trunc_i128(p, q)
}

} // verus!
