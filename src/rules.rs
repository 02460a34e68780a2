//! The steering rules: what one pair of agents does to each other's
//! velocity, and what each agent does alone (centering, speed limit,
//! integration). Lengths are in thousandths of a world unit, velocities in
//! thousandths of a unit per second, times in milliseconds.
use vstd::prelude::*;
use crate::fixed::{
    bounded, diff, is_ceil_sqrt, div_trunc, div_trunc_i128, in_limit, is_zero, length, length_exec,
    lemma_div_trunc_bound, lemma_square_mono, neg, norm2, norm2_exec, sat_add, sat_add_exec, scale_c,
    scale_c_exec, wf_vec, Vec3, SCALE,
};

verus! {

/// Below this distance alignment and cohesion are off.
pub const PROTECTED_RANGE: i64 = 40_000;
/// Below this distance agents push each other apart.
pub const AVOID_RANGE: i64 = 20_000;
/// Up to this distance velocities are aligned.
pub const ALIGN_RANGE: i64 = 300_000;
/// Below this distance agents steer toward each other.
pub const CO_RANGE: i64 = 200_000;
/// Beyond this distance from the origin agents are pulled back.
pub const MAX_RANGE: i64 = 500_000;
/// The largest speed an agent keeps after a tick.
pub const MAX_SPEED: i64 = 200_000;
/// The alignment factor is `1 / ALIGN_DIVISOR`.
pub const ALIGN_DIVISOR: i64 = 8;
/// The cohesion factor is `1 / CO_DIVISOR`.
pub const CO_DIVISOR: i64 = 20;
/// The centering strength is `1 / CENTERING_DIVISOR`.
pub const CENTERING_DIVISOR: i64 = 2;

pub open spec fn sq(r: int) -> int {
    r * r
}

/// Alignment is active at squared distance `d2`.
pub open spec fn aligns(d2: int) -> bool {
    sq(PROTECTED_RANGE as int) < d2 && d2 <= sq(ALIGN_RANGE as int)
}

/// Separation is active at squared distance `d2`.
pub open spec fn avoids(d2: int) -> bool {
    d2 < sq(AVOID_RANGE as int)
}

/// Cohesion is active at squared distance `d2`.
pub open spec fn coheres(d2: int) -> bool {
    sq(PROTECTED_RANGE as int) < d2 && d2 < sq(CO_RANGE as int)
}

/// Scratch velocity `s` after the alignment step of a pair whose current
/// velocities are `va` and `vb`: moved toward their average `avg` by
/// `(avg - s) * dt / ALIGN_DIVISOR`.
pub open spec fn align_step(s: Vec3, va: Vec3, vb: Vec3, dt: int) -> Vec3 {
    let den = 2 * ALIGN_DIVISOR * SCALE;
    sat_add(
        s,
        div_trunc((va.x + vb.x - 2 * s.x) * dt, den),
        div_trunc((va.y + vb.y - 2 * s.y) * dt, den),
        div_trunc((va.z + vb.z - 2 * s.z) * dt, den),
    )
}

/// The separation push for an agent whose offset from the other is `dist`:
/// `dist * dt`.
pub open spec fn separation_push(dist: Vec3, dt: int) -> Vec3 {
    Vec3 {
        x: div_trunc(dist.x * dt, SCALE as int) as i64,
        y: div_trunc(dist.y * dt, SCALE as int) as i64,
        z: div_trunc(dist.z * dt, SCALE as int) as i64,
    }
}

/// `s` plus `dir` rescaled to length `num / den`; `s` itself when `dir` is
/// the zero vector.
pub open spec fn toward(s: Vec3, dir: Vec3, num: int, den: int) -> Vec3 {
    let l = length(dir);
    if l == 0 {
        s
    } else {
        sat_add(s, scale_c(dir.x as int, l, num, den), scale_c(dir.y as int, l, num, den), scale_c(dir.z as int, l, num, den))
    }
}

/// The new velocities of agents `a` and `b` after their pair is evaluated:
/// alignment, then separation, then cohesion. Alignment and separation scale
/// with the tick's `dt`; cohesion scales with the total elapsed time `t`, so
/// it grows stronger the longer the flock runs.
pub open spec fn steer_pair(a: Agent, b: Agent, dt: int, t: int) -> (Vec3, Vec3) {
    let dist = diff(a.position, b.position);
    let d2 = norm2(dist);
    let a1 = if aligns(d2) { align_step(a.velocity, a.velocity, b.velocity, dt) } else { a.velocity };
    let b1 = if aligns(d2) { align_step(b.velocity, a.velocity, b.velocity, dt) } else { b.velocity };
    let pa = separation_push(dist, dt);
    let pb = separation_push(neg(dist), dt);
    let a2 = if avoids(d2) { sat_add(a1, pa.x as int, pa.y as int, pa.z as int) } else { a1 };
    let b2 = if avoids(d2) { sat_add(b1, pb.x as int, pb.y as int, pb.z as int) } else { b1 };
    let a3 = if coheres(d2) { toward(a2, diff(b.position, a.position), t, CO_DIVISOR as int) } else { a2 };
    let b3 = if coheres(d2) { toward(b2, dist, t, CO_DIVISOR as int) } else { b2 };
    (a3, b3)
}

/// Velocity `v` of an agent at `p` after the pull toward the origin.
pub open spec fn centered(p: Vec3, v: Vec3, t: int) -> Vec3 {
    if norm2(p) > sq(MAX_RANGE as int) {
        toward(v, neg(p), t * (length(p) - MAX_RANGE), CENTERING_DIVISOR * MAX_RANGE)
    } else {
        v
    }
}

/// `v` rescaled to `MAX_SPEED` when it is faster; zero stays zero.
pub open spec fn limited(v: Vec3) -> Vec3 {
    if is_zero(v) {
        v
    } else if norm2(v) > sq(MAX_SPEED as int) {
        let l = length(v);
        Vec3 {
            x: scale_c(v.x as int, l, MAX_SPEED as int, 1) as i64,
            y: scale_c(v.y as int, l, MAX_SPEED as int, 1) as i64,
            z: scale_c(v.z as int, l, MAX_SPEED as int, 1) as i64,
        }
    } else {
        v
    }
}

/// One simulated agent.
#[derive(Clone, Copy, Debug, PartialEq, Eq, Structural)]
pub struct Agent {
    pub position: Vec3,
    pub velocity: Vec3,
    /// The direction the agent faces: its last non-zero velocity.
    pub heading: Vec3,
}

pub open spec fn wf_agent(a: Agent) -> bool {
    wf_vec(a.position) && wf_vec(a.velocity) && wf_vec(a.heading)
}

pub open spec fn with_velocity(a: Agent, v: Vec3) -> Agent {
    Agent { position: a.position, velocity: v, heading: a.heading }
}

/// How the flock is kept in a bounded region.
#[derive(Clone, Copy, Debug, PartialEq, Eq, Structural)]
pub enum Boundary {
    /// Agents beyond `MAX_RANGE` are pulled back toward the origin.
    Centering,
    /// An agent whose `x` or `y` leaves `[min, max]` has that velocity
    /// component reversed and is put back on the edge.
    Reflect { min: Vec3, max: Vec3 },
}

pub open spec fn wf_boundary(b: Boundary) -> bool {
    match b {
        Boundary::Centering => true,
        Boundary::Reflect { min, max } => wf_vec(min) && wf_vec(max),
    }
}

/// An agent after the per-agent steps of the interaction pass: the pull
/// toward the origin where the boundary asks for it, then the speed limit.
pub open spec fn finished(a: Agent, t: int, b: Boundary) -> Agent {
    let v = match b {
        Boundary::Centering => centered(a.position, a.velocity, t),
        Boundary::Reflect { .. } => a.velocity,
    };
    with_velocity(a, limited(v))
}

/// `c` outside `[lo, hi]`.
pub open spec fn outside(c: int, lo: int, hi: int) -> bool {
    c < lo || c > hi
}

/// `c` clamped into `[lo, hi]`.
pub open spec fn clamp_to(c: int, lo: int, hi: int) -> int {
    if c < lo {
        lo
    } else if c > hi {
        hi
    } else {
        c
    }
}

/// The agent after the reflecting boundary `[min, max]` on `x` and `y`.
pub open spec fn reflected(a: Agent, min: Vec3, max: Vec3) -> Agent {
    let p = a.position;
    let v = a.velocity;
    Agent {
        position: Vec3 {
            x: clamp_to(p.x as int, min.x as int, max.x as int) as i64,
            y: clamp_to(p.y as int, min.y as int, max.y as int) as i64,
            z: p.z,
        },
        velocity: Vec3 {
            x: if outside(p.x as int, min.x as int, max.x as int) { -v.x } else { v.x as int } as i64,
            y: if outside(p.y as int, min.y as int, max.y as int) { -v.y } else { v.y as int } as i64,
            z: v.z,
        },
        heading: a.heading,
    }
}

/// The agent after the boundary step that follows integration.
pub open spec fn bounded_by(a: Agent, b: Boundary) -> Agent {
    match b {
        Boundary::Centering => a,
        Boundary::Reflect { min, max } => reflected(a, min, max),
    }
}

/// An agent after the integration pass: moved by `velocity * dt`, facing its
/// velocity unless that is zero.
pub open spec fn integrated(a: Agent, dt: int) -> Agent {
    let v = a.velocity;
    Agent {
        position: sat_add(
            a.position,
            div_trunc(v.x * dt, SCALE as int),
            div_trunc(v.y * dt, SCALE as int),
            div_trunc(v.z * dt, SCALE as int),
        ),
        velocity: v,
        heading: if is_zero(v) { a.heading } else { v },
    }
}

pub fn is_zero_exec(v: Vec3) -> (r: bool)
    ensures
        r == is_zero(v),
{
    v.x == 0 && v.y == 0 && v.z == 0
}

pub fn diff_exec(a: Vec3, b: Vec3) -> (r: Vec3)
    requires
        wf_vec(a),
        wf_vec(b),
    ensures
        r == diff(a, b),
        bounded(r, 0x8000_0000),
{
    Vec3 { x: a.x - b.x, y: a.y - b.y, z: a.z - b.z }
}

pub fn neg_exec(a: Vec3) -> (r: Vec3)
    requires
        bounded(a, 0x8000_0000),
    ensures
        r == neg(a),
        bounded(r, 0x8000_0000),
{
    Vec3 { x: -a.x, y: -a.y, z: -a.z }
}

fn align_c(s: i64, va: i64, vb: i64, dt: u32) -> (r: i128)
    requires
        in_limit(s as int),
        in_limit(va as int),
        in_limit(vb as int),
    ensures
        r == div_trunc((va + vb - 2 * s) * dt, 2 * ALIGN_DIVISOR * SCALE),
        -0x1_0000_0000_0000_0000 <= r <= 0x1_0000_0000_0000_0000,
{
    let e: i128 = va as i128 + vb as i128 - 2 * s as i128;
    assert(-0x1_0000_0000_0000_0000 <= (e as int) * (dt as int) <= 0x1_0000_0000_0000_0000)
        by (nonlinear_arith)
        requires -0x1_0000_0000 <= e <= 0x1_0000_0000, 0 <= dt < 0x1_0000_0000;
    let p: i128 = e * dt as i128;
    let q = div_trunc_i128(p, 2 * ALIGN_DIVISOR as i128 * SCALE as i128);
    proof {
        lemma_div_trunc_bound(p as int, 2 * ALIGN_DIVISOR * SCALE);
    }
    q
}

pub fn align_step_exec(s: Vec3, va: Vec3, vb: Vec3, dt: u32) -> (r: Vec3)
    requires
        wf_vec(s),
        wf_vec(va),
        wf_vec(vb),
    ensures
        r == align_step(s, va, vb, dt as int),
        wf_vec(r),
{
    let dx = align_c(s.x, va.x, vb.x, dt);
    let dy = align_c(s.y, va.y, vb.y, dt);
    let dz = align_c(s.z, va.z, vb.z, dt);
    sat_add_exec(s, dx, dy, dz)
}

fn push_c(c: i64, dt: u32) -> (r: i64)
    requires
        -0x8000_0000 <= c <= 0x8000_0000,
    ensures
        r == div_trunc(c * dt, SCALE as int),
        -0x8000_0000_0000_0000 <= r * SCALE <= 0x8000_0000_0000_0000,
{
    assert(-0x8000_0000_0000_0000 <= (c as int) * (dt as int) <= 0x8000_0000_0000_0000)
        by (nonlinear_arith)
        requires -0x8000_0000 <= c <= 0x8000_0000, 0 <= dt < 0x1_0000_0000;
    let p: i128 = c as i128 * dt as i128;
    let q = div_trunc_i128(p, SCALE as i128);
    proof {
        lemma_div_trunc_bound(p as int, SCALE as int);
    }
    q as i64
}

pub fn separation_push_exec(dist: Vec3, dt: u32) -> (r: Vec3)
    requires
        bounded(dist, 0x8000_0000),
    ensures
        r == separation_push(dist, dt as int),
{
    Vec3 { x: push_c(dist.x, dt), y: push_c(dist.y, dt), z: push_c(dist.z, dt) }
}

pub fn toward_exec(s: Vec3, dir: Vec3, num: i128, den: i128) -> (r: Vec3)
    requires
        wf_vec(s),
        bounded(dir, 0x8000_0000),
        0 <= num <= 0x1_0000_0000_0000_0000,
        0 < den <= 0x1_0000_0000,
    ensures
        r == toward(s, dir, num as int, den as int),
        wf_vec(r),
{
    let l = length_exec(dir);
    if l == 0 {
        s
    } else {
        let dx = scale_c_exec(dir.x, l, num, den);
        let dy = scale_c_exec(dir.y, l, num, den);
        let dz = scale_c_exec(dir.z, l, num, den);
        sat_add_exec(s, dx, dy, dz)
    }
}

/// Distances are compared through their squares, which is exact.
pub fn steer_pair_exec(a: Agent, b: Agent, dt: u32, t: u32) -> (r: (Vec3, Vec3))
    requires
        wf_agent(a),
        wf_agent(b),
    ensures
        r == steer_pair(a, b, dt as int, t as int),
        wf_vec(r.0),
        wf_vec(r.1),
{
    let dist = diff_exec(a.position, b.position);
    let d2 = norm2_exec(dist);
    let pr: u64 = (PROTECTED_RANGE * PROTECTED_RANGE) as u64;
    let ar: u64 = (ALIGN_RANGE * ALIGN_RANGE) as u64;
    let vr: u64 = (AVOID_RANGE * AVOID_RANGE) as u64;
    let cr: u64 = (CO_RANGE * CO_RANGE) as u64;
    let (a1, b1) = if pr < d2 && d2 <= ar {
        (align_step_exec(a.velocity, a.velocity, b.velocity, dt), align_step_exec(b.velocity, a.velocity, b.velocity, dt))
    } else {
        (a.velocity, b.velocity)
    };
    let (a2, b2) = if d2 < vr {
        let pa = separation_push_exec(dist, dt);
        let pb = separation_push_exec(neg_exec(dist), dt);
        (sat_add_exec(a1, pa.x as i128, pa.y as i128, pa.z as i128), sat_add_exec(b1, pb.x as i128, pb.y as i128, pb.z as i128))
    } else {
        (a1, b1)
    };
    if pr < d2 && d2 < cr {
        let back = diff_exec(b.position, a.position);
        (toward_exec(a2, back, t as i128, CO_DIVISOR as i128), toward_exec(b2, dist, t as i128, CO_DIVISOR as i128))
    } else {
        (a2, b2)
    }
}

pub fn centered_exec(p: Vec3, v: Vec3, t: u32) -> (r: Vec3)
    requires
        wf_vec(p),
        wf_vec(v),
    ensures
        r == centered(p, v, t as int),
        wf_vec(r),
{
    let n = norm2_exec(p);
    if n > (MAX_RANGE * MAX_RANGE) as u64 {
        let l = length_exec(p);
        proof {
            if l <= MAX_RANGE {
                lemma_square_mono(l as int, MAX_RANGE as int);
            }
        }
        let excess: i128 = l as i128 - MAX_RANGE as i128;
        assert(0 <= (t as int) * (excess as int) <= 0x1_0000_0000_0000_0000) by (nonlinear_arith)
            requires 0 <= t < 0x1_0000_0000, 0 <= excess <= 0x1_0000_0000;
        let num: i128 = t as i128 * excess;
        toward_exec(v, neg_exec(p), num, (CENTERING_DIVISOR * MAX_RANGE) as i128)
    } else {
        v
    }
}

proof fn lemma_scaled_component(c: int, l: int)
    requires
        l > 0,
    ensures
        ({
            let q = scale_c(c, l, MAX_SPEED as int, 1);
            q * q * (l * l) <= c * c * (MAX_SPEED * MAX_SPEED)
        }),
{
    let m = MAX_SPEED as int;
    let q = scale_c(c, l, m, 1);
    assert(l * 1 == l);
    lemma_div_trunc_bound(c * m, l);
    let aq = if q >= 0 { q } else { -q };
    let ac = if c >= 0 { c } else { -c };
    assert(if c * m >= 0 { c * m } else { -(c * m) } == ac * m) by (nonlinear_arith)
        requires m > 0, ac == if c >= 0 { c } else { -c };
    assert(aq * l <= ac * m);
    assert(aq * l >= 0) by (nonlinear_arith)
        requires aq >= 0, l > 0;
    lemma_square_mono(aq * l, ac * m);
    assert((aq * l) * (aq * l) == q * q * (l * l)) by (nonlinear_arith)
        requires aq == q || aq == -q;
    assert((ac * m) * (ac * m) == c * c * (m * m)) by (nonlinear_arith)
        requires ac == c || ac == -c;
}

/// Rescaling a vector that is faster than `MAX_SPEED` gives a speed of at
/// most `MAX_SPEED`.
pub proof fn lemma_rescaled_speed(v: Vec3, l: int)
    requires
        bounded(v, 0x8000_0000),
        is_ceil_sqrt(norm2(v), l),
        l > 0,
    ensures
        ({
            let m = MAX_SPEED as int;
            let qx = scale_c(v.x as int, l, m, 1);
            let qy = scale_c(v.y as int, l, m, 1);
            let qz = scale_c(v.z as int, l, m, 1);
            &&& qx * qx + qy * qy + qz * qz <= m * m
            &&& -m <= qx <= m
            &&& -m <= qy <= m
            &&& -m <= qz <= m
        }),
{
    let m = MAX_SPEED as int;
    let x = v.x as int;
    let y = v.y as int;
    let z = v.z as int;
    let qx = scale_c(x, l, m, 1);
    let qy = scale_c(y, l, m, 1);
    let qz = scale_c(z, l, m, 1);
    lemma_scaled_component(x, l);
    lemma_scaled_component(y, l);
    lemma_scaled_component(z, l);
    let ll = l * l;
    let rr = qx * qx + qy * qy + qz * qz;
    assert(rr * ll <= (x * x + y * y + z * z) * (m * m)) by (nonlinear_arith)
        requires
            qx * qx * ll <= x * x * (m * m),
            qy * qy * ll <= y * y * (m * m),
            qz * qz * ll <= z * z * (m * m),
            rr == qx * qx + qy * qy + qz * qz;
    assert(x * x + y * y + z * z <= ll);
    assert((x * x + y * y + z * z) * (m * m) <= ll * (m * m)) by (nonlinear_arith)
        requires x * x + y * y + z * z <= ll, m > 0;
    assert(rr <= m * m) by (nonlinear_arith)
        requires rr * ll <= ll * (m * m), ll > 0;
    assert(qx * qx >= 0 && qy * qy >= 0 && qz * qz >= 0) by (nonlinear_arith);
    assert(-m <= qx <= m) by (nonlinear_arith)
        requires qx * qx <= m * m, m > 0;
    assert(-m <= qy <= m) by (nonlinear_arith)
        requires qy * qy <= m * m, m > 0;
    assert(-m <= qz <= m) by (nonlinear_arith)
        requires qz * qz <= m * m, m > 0;
}

/// `v` rescaled to `MAX_SPEED` when it is faster.
pub fn limited_exec(v: Vec3) -> (r: Vec3)
    requires
        wf_vec(v),
    ensures
        r == limited(v),
        wf_vec(r),
        norm2(r) <= sq(MAX_SPEED as int),
{
    if is_zero_exec(v) {
        return v;
    }
    let n = norm2_exec(v);
    if n > (MAX_SPEED * MAX_SPEED) as u64 {
        let l = length_exec(v);
        proof {
            lemma_rescaled_speed(v, l as int);
        }
        let r = Vec3 {
            x: scale_c_exec(v.x, l, MAX_SPEED as i128, 1) as i64,
            y: scale_c_exec(v.y, l, MAX_SPEED as i128, 1) as i64,
            z: scale_c_exec(v.z, l, MAX_SPEED as i128, 1) as i64,
        };
        r
    } else {
        v
    }
}

/// The agent after the per-agent steps of the interaction pass.
pub fn finished_exec(a: Agent, t: u32, b: Boundary) -> (r: Agent)
    requires
        wf_agent(a),
    ensures
        r == finished(a, t as int, b),
        wf_agent(r),
        norm2(r.velocity) <= sq(MAX_SPEED as int),
{
    let v = match b {
        Boundary::Centering => centered_exec(a.position, a.velocity, t),
        Boundary::Reflect { .. } => a.velocity,
    };
    Agent { position: a.position, velocity: limited_exec(v), heading: a.heading }
}

fn reflect_c(p: i64, v: i64, lo: i64, hi: i64) -> (r: (i64, i64))
    requires
        in_limit(p as int),
        in_limit(v as int),
        in_limit(lo as int),
        in_limit(hi as int),
    ensures
        r.0 == clamp_to(p as int, lo as int, hi as int),
        r.1 == if outside(p as int, lo as int, hi as int) { -v } else { v as int },
        in_limit(r.0 as int),
        in_limit(r.1 as int),
{
    let nv = if p < lo || p > hi { -v } else { v };
    let np = if p < lo { lo } else if p > hi { hi } else { p };
    (np, nv)
}

/// The agent after the boundary step that follows integration.
pub fn bounded_by_exec(a: Agent, b: Boundary) -> (r: Agent)
    requires
        wf_agent(a),
        wf_boundary(b),
    ensures
        r == bounded_by(a, b),
        wf_agent(r),
        norm2(r.velocity) == norm2(a.velocity),
        is_zero(r.velocity) == is_zero(a.velocity),
{
    match b {
        Boundary::Centering => a,
        Boundary::Reflect { min, max } => {
            let (px, vx) = reflect_c(a.position.x, a.velocity.x, min.x, max.x);
            let (py, vy) = reflect_c(a.position.y, a.velocity.y, min.y, max.y);
            let r = Agent {
                position: Vec3 { x: px, y: py, z: a.position.z },
                velocity: Vec3 { x: vx, y: vy, z: a.velocity.z },
                heading: a.heading,
            };
            assert((vx as int) * (vx as int) == (a.velocity.x as int) * (a.velocity.x as int))
                by (nonlinear_arith)
                requires vx == a.velocity.x || vx == -a.velocity.x;
            assert((vy as int) * (vy as int) == (a.velocity.y as int) * (a.velocity.y as int))
                by (nonlinear_arith)
                requires vy == a.velocity.y || vy == -a.velocity.y;
            r
        },
    }
}

fn step_c(v: i64, dt: u32) -> (r: i128)
    requires
        in_limit(v as int),
    ensures
        r == div_trunc(v * dt, SCALE as int),
        -0x1_0000_0000_0000_0000 <= r <= 0x1_0000_0000_0000_0000,
{
    assert(-0x1_0000_0000_0000_0000 <= (v as int) * (dt as int) <= 0x1_0000_0000_0000_0000)
        by (nonlinear_arith)
        requires -0x4000_0000 <= v <= 0x4000_0000, 0 <= dt < 0x1_0000_0000;
    let p: i128 = v as i128 * dt as i128;
    proof {
        lemma_div_trunc_bound(p as int, SCALE as int);
    }
    div_trunc_i128(p, SCALE as i128)
}

/// The agent after the integration pass.
pub fn integrated_exec(a: Agent, dt: u32) -> (r: Agent)
    requires
        wf_agent(a),
    ensures
        r == integrated(a, dt as int),
        wf_agent(r),
{
    let v = a.velocity;
    let p = sat_add_exec(a.position, step_c(v.x, dt), step_c(v.y, dt), step_c(v.z, dt));
    let heading = if is_zero_exec(v) { a.heading } else { v };
    Agent { position: p, velocity: v, heading }
}

/// The velocities that a pair hands back keep every component within
/// `COORD_LIMIT`.
pub proof fn lemma_steer_pair_wf(a: Agent, b: Agent, dt: int, t: int)
    requires
        wf_agent(a),
        wf_agent(b),
    ensures
        wf_vec(steer_pair(a, b, dt, t).0),
        wf_vec(steer_pair(a, b, dt, t).1),
{
}

/// The boundary step keeps the speed, and keeps a zero velocity zero.
pub proof fn lemma_bounded_by_keeps_speed(a: Agent, b: Boundary)
    requires
        wf_agent(a),
    ensures
        norm2(bounded_by(a, b).velocity) == norm2(a.velocity),
        is_zero(bounded_by(a, b).velocity) == is_zero(a.velocity),
        bounded_by(a, b).heading == a.heading,
{
    if let Boundary::Reflect { min, max } = b {
        let r = reflected(a, min, max);
        let (x, y) = (a.velocity.x as int, a.velocity.y as int);
        assert((r.velocity.x as int) * (r.velocity.x as int) == x * x) by (nonlinear_arith)
            requires r.velocity.x == x || r.velocity.x == -x;
        assert((r.velocity.y as int) * (r.velocity.y as int) == y * y) by (nonlinear_arith)
            requires r.velocity.y == y || r.velocity.y == -y;
    }
}

} // verus!
