//! Properties of the tick that hold for every flock.
use vstd::prelude::*;
use crate::fixed::{
    diff, div_trunc, in_limit, is_zero, lemma_div_trunc_bound, neg, norm2, sat, wf_vec,
    Vec3, SCALE,
};
use crate::flock::{
    lemma_pair_pass_frame, lemma_pair_step_frame, lemma_row_pass_frame, pair_pass,
    row_pass, run, tick_result, wf_agents,
};
use crate::rules::{
    aligns, avoids, coheres, separation_push, sq, steer_pair, wf_agent, Agent, Boundary,
    ALIGN_DIVISOR,
    MAX_RANGE,
};

verus! {

/// No rule is active between `a` and `b`.
pub open spec fn quiet(a: Agent, b: Agent) -> bool {
    let d2 = norm2(diff(a.position, b.position));
    !aligns(d2) && !avoids(d2) && !coheres(d2)
}

/// No other agent of `s` is within any interaction range of agent `k`.
pub open spec fn isolated(s: Seq<Agent>, k: int) -> bool {
    forall|j: int| 0 <= j < s.len() && j != k ==> #[trigger] quiet(s[k], s[j])
}

proof fn lemma_quiet_sym(a: Agent, b: Agent)
    requires
        wf_agent(a),
        wf_agent(b),
    ensures
        quiet(a, b) == quiet(b, a),
{
    let x = a.position.x - b.position.x;
    let y = a.position.y - b.position.y;
    let z = a.position.z - b.position.z;
    assert(x * x == (-x) * (-x) && y * y == (-y) * (-y) && z * z == (-z) * (-z)) by (nonlinear_arith);
}

proof fn lemma_row_pass_keeps(s: Seq<Agent>, i: int, j: int, k: int, dt: int, t: int)
    requires
        wf_agents(s),
        0 <= i < s.len(),
        j <= s.len(),
        0 <= k < s.len(),
        isolated(s, k),
        dt >= 0,
        t >= 0,
    ensures
        row_pass(s, i, j, dt, t)[k] == s[k],
    decreases j - i,
{
    if j > i + 1 {
        lemma_row_pass_keeps(s, i, j - 1, k, dt, t);
        let r = row_pass(s, i, j - 1, dt, t);
        lemma_row_pass_frame(s, i, j - 1, dt, t);
        lemma_pair_step_frame(r, i, j - 1, dt, t);
        if k == i {
            assert(quiet(s[k], s[j - 1]));
            assert(quiet(r[i], r[j - 1]));
        } else if k == j - 1 {
            assert(quiet(s[k], s[i]));
            assert(wf_agent(s[k]) && wf_agent(s[i]));
            lemma_quiet_sym(s[k], s[i]);
            assert(quiet(r[i], r[j - 1]));
        }
    }
}

proof fn lemma_pair_pass_keeps(s: Seq<Agent>, i: int, k: int, dt: int, t: int)
    requires
        wf_agents(s),
        i <= s.len(),
        0 <= k < s.len(),
        isolated(s, k),
        dt >= 0,
        t >= 0,
    ensures
        pair_pass(s, i, dt, t)[k] == s[k],
    decreases i,
{
    if i > 0 {
        lemma_pair_pass_keeps(s, i - 1, k, dt, t);
        lemma_pair_pass_frame(s, i - 1, dt, t);
        let p = pair_pass(s, i - 1, dt, t);
        assert forall|j: int| 0 <= j < p.len() && j != k implies #[trigger] quiet(p[k], p[j]) by {
            assert(quiet(s[k], s[j]));
        }
        lemma_row_pass_keeps(p, i - 1, p.len() as int, k, dt, t);
    }
}

/// An agent at rest, within `MAX_RANGE` of the origin and with no other agent
/// within any interaction range, keeps its position, velocity and heading
/// through a tick.
pub proof fn lemma_resting_agent_stays(s: Seq<Agent>, k: int, dt: u32, t: u32)
    requires
        wf_agents(s),
        0 <= k < s.len(),
        is_zero(s[k].velocity),
        isolated(s, k),
        norm2(s[k].position) <= sq(MAX_RANGE as int),
    ensures
        tick_result(s, dt as int, t as int, Boundary::Centering)[k] == s[k],
{
    lemma_pair_pass_keeps(s, s.len() as int, k, dt as int, t as int);
    lemma_pair_pass_frame(s, s.len() as int, dt as int, t as int);
    assert(wf_agent(s[k]));
    let p = s[k].position;
    assert(div_trunc(0 * (dt as int), SCALE as int) == 0);
    assert(sat(p.x + 0) == p.x && sat(p.y + 0) == p.y && sat(p.z + 0) == p.z);
}

proof fn lemma_push_c_antisym(c: int, dt: int)
    requires
        -0x8000_0000 <= c <= 0x8000_0000,
        0 <= dt < 0x1_0000_0000,
    ensures
        div_trunc((-c) * dt, SCALE as int) == -div_trunc(c * dt, SCALE as int),
        -0x7FFF_FFFF_8000_0000 <= div_trunc(c * dt, SCALE as int) <= 0x7FFF_FFFF_8000_0000,
{
    assert((-c) * dt == -(c * dt)) by (nonlinear_arith);
    assert(-0x7FFF_FFFF_8000_0000 <= c * dt <= 0x7FFF_FFFF_8000_0000) by (nonlinear_arith)
        requires -0x8000_0000 <= c <= 0x8000_0000, 0 <= dt <= 0xFFFF_FFFF;
    lemma_div_trunc_bound(c * dt, SCALE as int);
}

/// Between two agents at `pa` and `pb`, the separation push on the second is
/// the exact negation of the push on the first.
pub proof fn lemma_separation_antisymmetric(pa: Vec3, pb: Vec3, dt: u32)
    requires
        wf_vec(pa),
        wf_vec(pb),
    ensures
        separation_push(diff(pb, pa), dt as int) == neg(separation_push(diff(pa, pb), dt as int)),
        neg(diff(pa, pb)) == diff(pb, pa),
{
    let d = diff(pa, pb);
    let e = diff(pb, pa);
    assert(e.x == -d.x && e.y == -d.y && e.z == -d.z);
    lemma_push_c_antisym(d.x as int, dt as int);
    lemma_push_c_antisym(d.y as int, dt as int);
    lemma_push_c_antisym(d.z as int, dt as int);
}

/// Two velocity components `x` and `y` become `nx` and `ny` under one
/// alignment step of `dt` milliseconds: their sum is kept and their gap
/// shrinks to `(1 - dt / (ALIGN_DIVISOR * SCALE))` of what it was, rounded
/// within one fixed-point unit, without changing sign; it shrinks strictly
/// once the step moves them at all.
pub open spec fn aligned_closer(x: int, y: int, nx: int, ny: int, dt: int) -> bool {
    let k = ALIGN_DIVISOR * SCALE;
    &&& nx + ny == x + y
    &&& x <= y ==> {
        &&& 0 <= ny - nx <= y - x
        &&& (y - x) * (k - dt) <= k * (ny - nx) < (y - x) * (k - dt) + 2 * k
        &&& ((y - x) * dt >= 2 * k ==> ny - nx < y - x)
    }
    &&& y <= x ==> {
        &&& 0 <= nx - ny <= x - y
        &&& (x - y) * (k - dt) <= k * (nx - ny) < (x - y) * (k - dt) + 2 * k
        &&& ((x - y) * dt >= 2 * k ==> nx - ny < x - y)
    }
}

proof fn lemma_align_c_ordered(x: int, y: int, dt: int)
    requires
        in_limit(x),
        in_limit(y),
        x <= y,
        0 <= dt <= ALIGN_DIVISOR * SCALE,
    ensures
        ({
            let den = 2 * ALIGN_DIVISOR * SCALE;
            let nx = sat(x + div_trunc((x + y - 2 * x) * dt, den));
            let ny = sat(y + div_trunc((x + y - 2 * y) * dt, den));
            &&& aligned_closer(x, y, nx, ny, dt)
            &&& aligned_closer(y, x, ny, nx, dt)
        }),
{
    let k = ALIGN_DIVISOR * SCALE;
    let den = 2 * k;
    let e = y - x;
    let p = e * dt;
    assert(0 <= p <= e * k) by (nonlinear_arith)
        requires e >= 0, 0 <= dt <= k, p == e * dt;
    let d = p / den;
    assert(d * den <= p < d * den + den) by (nonlinear_arith)
        requires den > 0, d == p / den, p >= 0;
    assert((x + y - 2 * x) * dt == p);
    assert((x + y - 2 * y) * dt == -p) by (nonlinear_arith)
        requires p == (y - x) * dt;
    lemma_div_trunc_bound(p, den);
    assert(div_trunc(p, den) == d);
    assert(div_trunc(-p, den) == -d);
    assert(0 <= 2 * d <= e) by (nonlinear_arith)
        requires d * den <= p, p < d * den + den, 0 <= p <= e * k, den == 2 * k, k > 0;
    assert(k * (e - 2 * d) == k * e - den * d) by (nonlinear_arith)
        requires den == 2 * k;
    assert(e * dt >= den ==> e - 2 * d < e) by (nonlinear_arith)
        requires p == e * dt, p < d * den + den, den > 0;
    assert(sat(x + d) == x + d);
    assert(sat(y - d) == y - d);
    assert(e * (k - dt) == e * k - p) by (nonlinear_arith)
        requires p == e * dt;
}

/// Where alignment is the only active rule between two agents and `dt` is at
/// most `ALIGN_DIVISOR` seconds, evaluating their pair moves each velocity
/// toward their average: per component the sum is kept and the gap shrinks
/// by the factor `1 - dt / ALIGN_DIVISOR` (in seconds), up to rounding.
pub proof fn lemma_alignment_converges(a: Agent, b: Agent, dt: u32, t: u32)
    requires
        wf_agent(a),
        wf_agent(b),
        dt <= ALIGN_DIVISOR * SCALE,
        aligns(norm2(diff(a.position, b.position))),
        !avoids(norm2(diff(a.position, b.position))),
        !coheres(norm2(diff(a.position, b.position))),
    ensures
        ({
            let (na, nb) = steer_pair(a, b, dt as int, t as int);
            let (va, vb) = (a.velocity, b.velocity);
            &&& aligned_closer(va.x as int, vb.x as int, na.x as int, nb.x as int, dt as int)
            &&& aligned_closer(va.y as int, vb.y as int, na.y as int, nb.y as int, dt as int)
            &&& aligned_closer(va.z as int, vb.z as int, na.z as int, nb.z as int, dt as int)
        }),
{
    let (va, vb) = (a.velocity, b.velocity);
    if va.x <= vb.x {
        lemma_align_c_ordered(va.x as int, vb.x as int, dt as int);
    } else {
        lemma_align_c_ordered(vb.x as int, va.x as int, dt as int);
    }
    if va.y <= vb.y {
        lemma_align_c_ordered(va.y as int, vb.y as int, dt as int);
    } else {
        lemma_align_c_ordered(vb.y as int, va.y as int, dt as int);
    }
    if va.z <= vb.z {
        lemma_align_c_ordered(va.z as int, vb.z as int, dt as int);
    } else {
        lemma_align_c_ordered(vb.z as int, va.z as int, dt as int);
    }
}

/// Two runs from the same flock with the same `(dt, elapsed)` sequence end in
/// the same flock.
pub proof fn lemma_runs_agree(s1: Seq<Agent>, s2: Seq<Agent>, steps: Seq<(u32, u32)>, b: Boundary)
    requires
        s1 == s2,
    ensures
        run(s1, steps, b) == run(s2, steps, b),
    decreases steps.len(),
{
    if steps.len() > 0 {
        let s = tick_result(s1, steps[0].0 as int, steps[0].1 as int, b);
        lemma_runs_agree(s, tick_result(s2, steps[0].0 as int, steps[0].1 as int, b), steps.drop_first(), b);
    }
}

/// A run over `steps` followed by one more tick is the run over `steps`
/// with that tick appended: a loop of `tick` calls whose invariant is
/// `agents@ == run(s0, done)` keeps it, so after any number of ticks the flock
/// is `run(s0, steps)`, whichever run computed it.
pub proof fn lemma_run_push(s: Seq<Agent>, steps: Seq<(u32, u32)>, step: (u32, u32), b: Boundary)
    ensures
        run(s, steps.push(step), b) == tick_result(run(s, steps, b), step.0 as int, step.1 as int, b),
    decreases steps.len(),
{
    if steps.len() == 0 {
        assert(steps.push(step).drop_first() =~= Seq::<(u32, u32)>::empty());
        assert(steps.push(step)[0] == step);
        let t1 = tick_result(s, step.0 as int, step.1 as int, b);
        assert(run(t1, Seq::<(u32, u32)>::empty(), b) == t1);
        assert(run(s, steps, b) == s);
    } else {
        let s1 = tick_result(s, steps[0].0 as int, steps[0].1 as int, b);
        assert(steps.push(step).drop_first() =~= steps.drop_first().push(step));
        assert(steps.push(step)[0] == steps[0]);
        lemma_run_push(s1, steps.drop_first(), step, b);
        assert(run(s, steps, b) == run(s1, steps.drop_first(), b));
        assert(run(s, steps.push(step), b) == run(s1, steps.push(step).drop_first(), b));
    }
}

} // verus!
